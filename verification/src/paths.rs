//! Places in the file system, by their components.
use vstd::prelude::*;
use crate::text;
use crate::text::{copy_strings, str_eq};

verus! {

broadcast use vstd::string::group_string_axioms;

/// A place in the file system: the components of its path, the first of which may
/// be the root.
pub struct Location {
    pub parts: Vec<String>,
}

impl View for Location {
    type V = Seq<Seq<char>>;

    open spec fn view(&self) -> Seq<Seq<char>> {
        text::texts(self.parts@)
    }
}

/// The places of a list.
pub open spec fn views(v: Seq<Location>) -> Seq<Seq<Seq<char>>> {
    Seq::new(v.len(), |i: int| v[i]@)
}

/// The place that may be missing.
pub open spec fn opt_view(l: Option<Location>) -> Option<Seq<Seq<char>>> {
    match l {
        Some(x) => Some(x@),
        None => None,
    }
}

/// Whether one place is inside another, or is that place.
pub open spec fn inside(path: Seq<Seq<char>>, root: Seq<Seq<char>>) -> bool {
    root.len() <= path.len() && path.subrange(0, root.len() as int) == root
}

impl Location {
    /// A copy.
    pub fn copy(&self) -> (r: Location)
        ensures
            r@ == self@,
    {
        Location { parts: copy_strings(&self.parts) }
    }

    /// The place `name` inside this one.
    pub fn join(&self, name: &str) -> (r: Location)
        ensures
            r@ == self@.push(name@),
    {
        let mut parts = copy_strings(&self.parts);
        let ghost before = parts@;
        parts.push(name.to_owned());
        assert(text::texts(parts@) =~= text::texts(before).push(name@));
        Location { parts }
    }

    /// Whether two places are the same.
    pub fn same(&self, other: &Location) -> (r: bool)
        ensures
            r == (self@ == other@),
    {
        if self.parts.len() != other.parts.len() {
            assert(self@.len() != other@.len());
            return false;
        }
        let r = self.starts_with(other);
        assert(self@.subrange(0, other@.len() as int) =~= self@);
        r
    }

    /// Whether this place is inside `root`, or is `root`.
    pub fn starts_with(&self, root: &Location) -> (r: bool)
        ensures
            r == inside(self@, root@),
    {
        if root.parts.len() > self.parts.len() {
            return false;
        }
        let mut i: usize = 0;
        while i < root.parts.len()
            invariant
                i <= root.parts.len(),
                root.parts.len() <= self.parts.len(),
                forall|j: int| 0 <= j < i ==> self@[j] == root@[j],
            decreases root.parts.len() - i,
        {
            if !str_eq(self.parts[i].as_str(), root.parts[i].as_str()) {
                assert(self@[i as int] != root@[i as int]);
                assert(self@.subrange(0, root@.len() as int)[i as int] != root@[i as int]);
                return false;
            }
            i = i + 1;
        }
        assert(self@.subrange(0, root@.len() as int) =~= root@);
        true
    }

    /// The last component.
    pub fn file_name(&self) -> (r: Option<String>)
        ensures
            text::opt_text(r) == (if self@.len() == 0 {
                None
            } else {
                Some(self@.last())
            }),
    {
        if self.parts.len() == 0 {
            None
        } else {
            Some(self.parts[self.parts.len() - 1].clone())
        }
    }
}

/// The place `name` inside a place that may be missing.
pub fn join_opt(base: &Option<Location>, name: &str) -> (r: Option<Location>)
    ensures
        opt_view(r) == (match opt_view(*base) {
            Some(b) => Some(b.push(name@)),
            None => None,
        }),
{
    match base {
        Some(b) => Some(b.join(name)),
        None => None,
    }
}

/// A place is inside another where it begins with it: what is joined to a place is inside
/// it, and so is the place itself, but nothing shorter and nothing that differs.
pub proof fn law_places_are_inside_what_they_begin_with(root: Seq<Seq<char>>, rest: Seq<Seq<char>>, other: Seq<Seq<char>>)
    ensures
        inside(root + rest, root),
        inside(root, root),
        other.len() < root.len() ==> !inside(other, root),
        inside(other, root) ==> forall|i: int| 0 <= i < root.len() ==> #[trigger] root[i] == other[i],
{
    assert((root + rest).subrange(0, root.len() as int) =~= root);
    assert(root.subrange(0, root.len() as int) =~= root);
    if inside(other, root) {
        let s = other.subrange(0, root.len() as int);
        assert forall|i: int| 0 <= i < root.len() implies #[trigger] root[i] == other[i] by {
            assert(s[i] == other[i]);
        }
    }
}

} // verus!
