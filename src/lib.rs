//! Compiles marked code blocks of book chapters into cached web artifacts and
//! splices interactive embeds into the rendered chapters.
use vstd::prelude::*;

pub mod compiler;
pub mod document;
pub mod label;
pub mod reference;
pub mod text;
pub mod version;

verus! {

/// Whether the renderer named `renderer` is one this preprocessor supports.
pub fn is_supported(renderer: &str) -> (r: bool)
    ensures
        r == (renderer@ == seq!['h', 't', 'm', 'l']),
{
    proof {
        reveal_strlit("html");
    }
    let n = renderer.unicode_len();
    if n != 4 {
        return false;
    }
    let r = renderer.get_char(0) == 'h' && renderer.get_char(1) == 't' && renderer.get_char(2)
        == 'm' && renderer.get_char(3) == 'l';
    proof {
        if r {
            assert(renderer@ =~= seq!['h', 't', 'm', 'l']);
        }
    }
    r
}

} // verus!
