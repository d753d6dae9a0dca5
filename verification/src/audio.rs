//! Which decoder reads an audio file, by its filename extension.

use vstd::prelude::*;

use crate::text::{ascii_lowercase, char_to_ascii_lowercase, chars_of};

verus! {

/// The audio file formats that can be loaded.
#[derive(Clone, Copy, Debug, PartialEq, Eq, Structural)]
pub enum AudioFormat {
    Flac,
    Wav,
}

/// The format named by a filename extension, compared case-insensitively
/// (ASCII): `flac` or `wav`.
pub open spec fn spec_audio_format(extension: Seq<char>) -> Option<AudioFormat> {
    let lower = extension.map_values(|c: char| ascii_lowercase(c));
    if lower == seq!['f', 'l', 'a', 'c'] {
        Some(AudioFormat::Flac)
    } else if lower == seq!['w', 'a', 'v'] {
        Some(AudioFormat::Wav)
    } else {
        None
    }
}

/// The format of a file with filename extension `extension`, if it is one
/// that can be loaded.
pub fn audio_format(extension: &str) -> (r: Option<AudioFormat>)
    ensures
        r == spec_audio_format(extension@),
{
    let chars = chars_of(extension);
    let mut lower: Vec<char> = Vec::new();
    let mut i: usize = 0;
    while i < chars.len()
        invariant
            chars@ == extension@,
            i <= chars@.len(),
            lower@ == chars@.take(i as int).map_values(|c: char| ascii_lowercase(c)),
        decreases chars@.len() - i,
    {
        lower.push(char_to_ascii_lowercase(chars[i]));
        i = i + 1;
        assert(lower@ =~= chars@.take(i as int).map_values(|c: char| ascii_lowercase(c)));
    }
    assert(chars@.take(chars@.len() as int) =~= chars@);
    let ghost l = lower@;
    if lower.len() == 4 && lower[0] == 'f' && lower[1] == 'l' && lower[2] == 'a' && lower[3] == 'c' {
        assert(l =~= seq!['f', 'l', 'a', 'c']);
        Some(AudioFormat::Flac)
    } else if lower.len() == 3 && lower[0] == 'w' && lower[1] == 'a' && lower[2] == 'v' {
        assert(l =~= seq!['w', 'a', 'v']);
        assert(l != seq!['f', 'l', 'a', 'c']);
        Some(AudioFormat::Wav)
    } else {
        assert(l != seq!['f', 'l', 'a', 'c']) by {
            if l == seq!['f', 'l', 'a', 'c'] {
                assert(l[0] == 'f' && l[1] == 'l' && l[2] == 'a' && l[3] == 'c');
            }
        }
        assert(l != seq!['w', 'a', 'v']) by {
            if l == seq!['w', 'a', 'v'] {
                assert(l[0] == 'w' && l[1] == 'a' && l[2] == 'v');
            }
        }
        None
    }
}

} // verus!
