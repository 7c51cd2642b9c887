//! Quality levels and emotions by name, as scripting front ends pass them.
//!
//! A name is matched against the lower-case names below once its ASCII
//! capitals are lowered. No other character lowers to a letter of these
//! names, so this is the same as comparing the fully lower-cased name.

use crate::types::{EmotionType, VoiceQuality};
use vstd::prelude::*;

verus! {

/// The code of `c` with an ASCII capital lowered.
pub open spec fn lowered_code(c: char) -> u32 {
    let u = c as u32;
    if 65 <= u && u <= 90 {
        (u + 32) as u32
    } else {
        u
    }
}

/// `name` is `word` once its ASCII capitals are lowered.
pub open spec fn is_named(name: Seq<char>, word: Seq<char>) -> bool {
    &&& name.len() == word.len()
    &&& forall|i: int| 0 <= i < name.len() ==> lowered_code(#[trigger] name[i]) == word[i] as u32
}

/// The quality level a name selects: "low", "high" or "ultra", and
/// `Medium` for any other name.
pub open spec fn quality_named(name: Seq<char>) -> VoiceQuality {
    if is_named(name, "low"@) {
        VoiceQuality::Low
    } else if is_named(name, "high"@) {
        VoiceQuality::High
    } else if is_named(name, "ultra"@) {
        VoiceQuality::Ultra
    } else {
        VoiceQuality::Medium
    }
}

/// The emotion a name selects: "happy", "sad", "angry", "fearful",
/// "surprised" or "disgusted", and `Neutral` for any other name.
pub open spec fn emotion_named(name: Seq<char>) -> EmotionType {
    if is_named(name, "happy"@) {
        EmotionType::Happy
    } else if is_named(name, "sad"@) {
        EmotionType::Sad
    } else if is_named(name, "angry"@) {
        EmotionType::Angry
    } else if is_named(name, "fearful"@) {
        EmotionType::Fearful
    } else if is_named(name, "surprised"@) {
        EmotionType::Surprised
    } else if is_named(name, "disgusted"@) {
        EmotionType::Disgusted
    } else {
        EmotionType::Neutral
    }
}

fn matches_name(name: &str, name_len: usize, word: &str) -> (r: bool)
    requires
        name_len == name@.len(),
    ensures
        r == is_named(name@, word@),
{
    let word_len: usize = word.unicode_len();
    if name_len != word_len {
        return false;
    }
    let mut i: usize = 0;
    while i < name_len
        invariant
            i <= name_len,
            name_len == name@.len(),
            name@.len() == word@.len(),
            forall|j: int| 0 <= j < i ==> lowered_code(#[trigger] name@[j]) == word@[j] as u32,
        decreases name_len - i,
    {
        let c: char = name.get_char(i);
        let w: char = word.get_char(i);
        let code: u32 = c as u32;
        let lowered: u32 = if 65 <= code && code <= 90 {
            code + 32
        } else {
            code
        };
        if lowered != w as u32 {
            return false;
        }
        i = i + 1;
    }
    true
}

impl VoiceQuality {
    /// The quality level of a name, ignoring ASCII case: "low", "high",
    /// "ultra"; any other name gives `Medium`.
    pub fn from_name(name: &str) -> (q: VoiceQuality)
        ensures
            q == quality_named(name@),
    {
        let n: usize = name.unicode_len();
        if matches_name(name, n, "low") {
            VoiceQuality::Low
        } else if matches_name(name, n, "high") {
            VoiceQuality::High
        } else if matches_name(name, n, "ultra") {
            VoiceQuality::Ultra
        } else {
            VoiceQuality::Medium
        }
    }
}

impl EmotionType {
    /// The emotion of a name, ignoring ASCII case: "happy", "sad", "angry",
    /// "fearful", "surprised", "disgusted"; any other name gives `Neutral`.
    pub fn from_name(name: &str) -> (e: EmotionType)
        ensures
            e == emotion_named(name@),
    {
        let n: usize = name.unicode_len();
        if matches_name(name, n, "happy") {
            EmotionType::Happy
        } else if matches_name(name, n, "sad") {
            EmotionType::Sad
        } else if matches_name(name, n, "angry") {
            EmotionType::Angry
        } else if matches_name(name, n, "fearful") {
            EmotionType::Fearful
        } else if matches_name(name, n, "surprised") {
            EmotionType::Surprised
        } else if matches_name(name, n, "disgusted") {
            EmotionType::Disgusted
        } else {
            EmotionType::Neutral
        }
    }
}

} // verus!
