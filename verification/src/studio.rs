//! The panel of the Parallax Studio: what it shows while a photo is made into a
//! wallpaper.
use vstd::prelude::*;
use crate::text;

verus! {

broadcast use vstd::string::group_string_axioms;

/// How long the sliders rest before the preview is made anew, in milliseconds.
pub const TUNE_SETTLE_MS: u64 = 180;

/// How often it is looked whether models are missing, in milliseconds.
pub const RECHECK_MS: u64 = 1000;

/// The state of the panel.
pub struct StudioPanel {
    /// Whether a preview is made or kept.
    pub busy: bool,
    pub status: String,
    /// In percent.
    pub progress: u32,
    pub has_preview: bool,
    /// Whether models are downloaded.
    pub downloading: bool,
    /// What is told of the download.
    pub download_text: String,
    pub needs_download: bool,
    /// When a slider moved last, in milliseconds, until it has been dealt with.
    pub tuned_at: Option<u64>,
}

impl StudioPanel {
    /// The panel at the start.
    pub fn new() -> (p: StudioPanel)
        ensures
            !p.busy,
            p.status@ == ""@,
            p.progress == 0,
            !p.has_preview,
            !p.downloading,
            p.download_text@ == ""@,
            !p.needs_download,
            p.tuned_at is None,
    {
        StudioPanel {
            busy: false,
            status: "".to_owned(),
            progress: 0,
            has_preview: false,
            downloading: false,
            download_text: "".to_owned(),
            needs_download: false,
            tuned_at: None,
        }
    }

    /// A photo was chosen: the preview of another one is gone.
    pub fn pick_image(&mut self)
        ensures
            final(self).status@ == "Click Render to preview."@,
            *final(self) == (StudioPanel { status: final(self).status, has_preview: false, ..*old(self) }),
    {
        self.status = "Click Render to preview.".to_owned();
        self.has_preview = false;
    }

    /// The user asks for a preview. Tells whether one is made.
    pub fn create(&mut self, has_image: bool) -> (start: bool)
        ensures
            start == (has_image && !old(self).busy),
            !has_image ==> final(self).status@ == "Select an image first."@ && *final(self) == (StudioPanel {
                status: final(self).status,
                ..*old(self)
            }),
            has_image && old(self).busy ==> *final(self) == *old(self),
            start ==> final(self).status@ == "Generating depth, inpainting background\u{2026}"@ && *final(self) == (
            StudioPanel { busy: true, status: final(self).status, progress: 0, ..*old(self) }),
    {
        if !has_image {
            self.status = "Select an image first.".to_owned();
            return false;
        }
        if self.busy {
            return false;
        }
        self.busy = true;
        self.status = "Generating depth, inpainting background\u{2026}".to_owned();
        self.progress = 0;
        true
    }

    /// Takes note of how far the preview is; nothing is shown once it is done.
    pub fn progressed(&mut self, percent: u32)
        ensures
            *final(self) == (StudioPanel {
                progress: if old(self).busy {
                    percent
                } else {
                    old(self).progress
                },
                ..*old(self)
            }),
    {
        if self.busy {
            self.progress = percent;
        }
    }

    /// A preview was made, or not; `shown` says whether it could be shown.
    pub fn preview_ready(&mut self, made: bool, shown: bool)
        ensures
            final(self).status@ == (if !made {
                "Failed - see Diagnostics."@
            } else if shown {
                "Preview ready - Save to add it to your Library."@
            } else {
                "Preview failed - see Diagnostics."@
            }),
            *final(self) == (StudioPanel {
                busy: false,
                status: final(self).status,
                progress: if made && shown {
                    100
                } else {
                    0
                },
                has_preview: old(self).has_preview || (made && shown),
                ..*old(self)
            }),
    {
        self.busy = false;
        if !made {
            self.progress = 0;
            self.status = "Failed - see Diagnostics.".to_owned();
        } else if shown {
            self.has_preview = true;
            self.progress = 100;
            self.status = "Preview ready - Save to add it to your Library.".to_owned();
        } else {
            self.progress = 0;
            self.status = "Preview failed - see Diagnostics.".to_owned();
        }
    }

    /// The user asks to keep the preview. Tells whether it is kept; `rendered` says
    /// whether there is one.
    pub fn save(&mut self, rendered: bool) -> (start: bool)
        ensures
            start == (rendered && !old(self).busy),
            !rendered ==> final(self).status@ == "Render a preview first."@ && *final(self) == (StudioPanel {
                status: final(self).status,
                ..*old(self)
            }),
            rendered && old(self).busy ==> *final(self) == *old(self),
            start ==> final(self).status@ == "Saving to Library\u{2026}"@ && *final(self) == (StudioPanel {
                busy: true,
                status: final(self).status,
                ..*old(self)
            }),
    {
        if !rendered {
            self.status = "Render a preview first.".to_owned();
            return false;
        }
        if self.busy {
            return false;
        }
        self.busy = true;
        self.status = "Saving to Library\u{2026}".to_owned();
        true
    }

    /// The preview was kept, under a name, or not.
    pub fn saved(&mut self, name: &Option<String>)
        ensures
            final(self).status@ == (match text::opt_text(*name) {
                Some(n) => "Created \""@ + n + "\" - see the Library."@,
                None => "Failed - see Diagnostics."@,
            }),
            *final(self) == (StudioPanel { busy: false, status: final(self).status, ..*old(self) }),
    {
        self.busy = false;
        match name {
            Some(n) => {
                let mut s = "Created \"".to_owned();
                s.append(n.as_str());
                s.append("\" - see the Library.");
                self.status = s;
            },
            None => {
                self.status = "Failed - see Diagnostics.".to_owned();
            },
        }
    }

    /// The user asks for the models that are missing. Tells whether they are
    /// downloaded.
    pub fn download(&mut self, available: bool, missing: usize) -> (start: bool)
        ensures
            start == (available && missing > 0 && !old(self).downloading),
            !available ==> *final(self) == *old(self),
            available && missing == 0 ==> *final(self) == (StudioPanel { needs_download: false, ..*old(self) }),
            available && missing > 0 && old(self).downloading ==> *final(self) == *old(self),
            start ==> final(self).download_text@ == "Starting download\u{2026}"@ && *final(self) == (StudioPanel {
                downloading: true,
                download_text: final(self).download_text,
                ..*old(self)
            }),
    {
        if !available {
            return false;
        }
        if missing == 0 {
            self.needs_download = false;
            return false;
        }
        if self.downloading {
            return false;
        }
        self.downloading = true;
        self.download_text = "Starting download\u{2026}".to_owned();
        true
    }

    /// The download ended.
    pub fn downloaded(&mut self, ok: bool)
        ensures
            ok ==> final(self).download_text == old(self).download_text,
            !ok ==> final(self).download_text@ == "Download failed - see Diagnostics."@,
            *final(self) == (StudioPanel {
                downloading: false,
                download_text: final(self).download_text,
                ..*old(self)
            }),
    {
        self.downloading = false;
        if !ok {
            self.download_text = "Download failed - see Diagnostics.".to_owned();
        }
    }

    /// A slider moved.
    pub fn tuned(&mut self, now: u64)
        ensures
            *final(self) == (StudioPanel { tuned_at: Some(now), ..*old(self) }),
    {
        self.tuned_at = Some(now);
    }

    /// Whether the preview is made anew, once the sliders came to rest: where there is a
    /// preview, with the style it was made in.
    pub fn rebakes(&mut self, now: u64, shown: bool, has_style: bool) -> (r: bool)
        ensures
            ({
                let rested = match old(self).tuned_at {
                    Some(t) => now - t >= TUNE_SETTLE_MS,
                    None => false,
                };
                &&& r == (rested && shown && has_style)
                &&& *final(self) == (StudioPanel {
                    tuned_at: if rested {
                        None
                    } else {
                        old(self).tuned_at
                    },
                    ..*old(self)
                })
            }),
    {
        if let Some(t) = self.tuned_at {
            if now >= t && now - t >= TUNE_SETTLE_MS {
                self.tuned_at = None;
                return shown && has_style;
            }
        }
        false
    }

    /// Whether it is looked again whether models are missing.
    pub fn rechecks(&self, since_ms: u64, tab_open: bool) -> (r: bool)
        ensures
            r == (since_ms >= RECHECK_MS && tab_open && !self.downloading),
    {
        since_ms >= RECHECK_MS && tab_open && !self.downloading
    }
}

/// The sliders rest for 180 milliseconds before the preview is made anew, and once a
/// second it is looked whether models are missing.
pub proof fn law_panel_keeps_its_times()
    ensures
        TUNE_SETTLE_MS == 180,
        RECHECK_MS == 1000,
{
}

} // verus!
