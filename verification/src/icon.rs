//! Names of the icons the interface draws, and where their images live.

use vstd::prelude::*;

verus! {

/// Icon names mapping to SVG files in `assets/icons/`.
#[derive(Debug, Clone, Copy, PartialEq, Eq, Structural)]
pub enum IconName {
    Inbox,
    ArrowDownToLine,
    CircleCheck,
    CirclePause,
    HardDrive,
    Plus,
}

impl IconName {
    /// The icon's file name without directory or suffix.
    pub open spec fn file_stem(self) -> Seq<char> {
        match self {
            IconName::Inbox => "inbox"@,
            IconName::ArrowDownToLine => "arrow-down-to-line"@,
            IconName::CircleCheck => "circle-check"@,
            IconName::CirclePause => "circle-pause"@,
            IconName::HardDrive => "hard-drive"@,
            IconName::Plus => "plus"@,
        }
    }

    /// Asset path of the icon's image: `icons/<name>.svg`.
    pub fn path(self) -> (p: &'static str)
        ensures
            p@ == "icons/"@ + self.file_stem() + ".svg"@,
    {
        proof {
            reveal_strlit("icons/");
            reveal_strlit(".svg");
            reveal_strlit("inbox");
            reveal_strlit("arrow-down-to-line");
            reveal_strlit("circle-check");
            reveal_strlit("circle-pause");
            reveal_strlit("hard-drive");
            reveal_strlit("plus");
            reveal_strlit("icons/inbox.svg");
            reveal_strlit("icons/arrow-down-to-line.svg");
            reveal_strlit("icons/circle-check.svg");
            reveal_strlit("icons/circle-pause.svg");
            reveal_strlit("icons/hard-drive.svg");
            reveal_strlit("icons/plus.svg");
        }
        let p = match self {
            IconName::Inbox => "icons/inbox.svg",
            IconName::ArrowDownToLine => "icons/arrow-down-to-line.svg",
            IconName::CircleCheck => "icons/circle-check.svg",
            IconName::CirclePause => "icons/circle-pause.svg",
            IconName::HardDrive => "icons/hard-drive.svg",
            IconName::Plus => "icons/plus.svg",
        };
        assert(p@ =~= "icons/"@ + self.file_stem() + ".svg"@);
        p
    }
}

} // verus!
