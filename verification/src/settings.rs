//! The settings a user keeps: the application's parameters and those of
//! each private chat.
use vstd::prelude::*;

verus! {

/// The application's parameters.
#[derive(Debug, Clone)]
pub struct ParamStore {
    theme: String,
    language: String,
    proxy: String,
    bubble_color: String,
    delete_delay: u32,
}

/// The settings of one private chat.
#[derive(Debug, Clone)]
pub struct PrivateChatSettings {
    pub bubble_color: String,
    pub background_picture: Vec<u8>,
    pub packground_color: String,
    /// Minutes before a message is deleted; 0 keeps messages.
    pub deletion_timer: u16,
    pub profile_picture: Vec<u8>,
    pub nickname: String,
}

/// The chars of `"#FFFFFF"`.
pub open spec fn white() -> Seq<char> {
    seq!['#', 'F', 'F', 'F', 'F', 'F', 'F']
}

/// The chars of `"#000000"`.
pub open spec fn black() -> Seq<char> {
    seq!['#', '0', '0', '0', '0', '0', '0']
}

/// The chars of `"Anonymous"`.
pub open spec fn anonymous() -> Seq<char> {
    seq!['A', 'n', 'o', 'n', 'y', 'm', 'o', 'u', 's']
}

impl Default for PrivateChatSettings {
    /// White bubbles on a black background, no pictures, no deletion timer,
    /// and the nickname `Anonymous`.
    fn default() -> (r: Self)
        ensures
            r.bubble_color@ == white(),
            r.background_picture@.len() == 0,
            r.packground_color@ == black(),
            r.deletion_timer == 0,
            r.profile_picture@.len() == 0,
            r.nickname@ == anonymous(),
    {
        let bubble = "#FFFFFF";
        let background = "#000000";
        let nickname = "Anonymous";
        proof {
            reveal_strlit("#FFFFFF");
            reveal_strlit("#000000");
            reveal_strlit("Anonymous");
        }
        PrivateChatSettings {
            bubble_color: bubble.to_owned(),
            background_picture: Vec::new(),
            packground_color: background.to_owned(),
            deletion_timer: 0,
            profile_picture: Vec::new(),
            nickname: nickname.to_owned(),
        }
    }
}

} // verus!
