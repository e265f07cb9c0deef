//! Fence labels: which code blocks opt into compilation, and the embed height
//! they ask for.
use vstd::prelude::*;
use vstd::string::*;
use crate::text::{split, split_on, starts_with, views};

verus! {

pub open spec fn rust_tag() -> Seq<char> {
    seq!['r', 'u', 's', 't']
}

pub open spec fn iced_tag() -> Seq<char> {
    seq!['i', 'c', 'e', 'd']
}

pub open spec fn iced_open() -> Seq<char> {
    seq!['i', 'c', 'e', 'd', '(']
}

pub open spec fn height_key() -> Seq<char> {
    seq!['h', 'e', 'i', 'g', 'h', 't', '=']
}

/// The first of `pieces`, from index `from` on, that starts with the opt-in
/// modifier.
pub open spec fn first_iced(pieces: Seq<Seq<char>>, from: int) -> Option<Seq<char>>
    decreases pieces.len() - from,
{
    if from < 0 || from >= pieces.len() {
        None
    } else if starts_with(pieces[from], iced_tag()) {
        Some(pieces[from])
    } else {
        first_iced(pieces, from + 1)
    }
}

/// The first comma-separated modifier of a label that starts with "iced".
pub open spec fn iced_modifier(label: Seq<char>) -> Option<Seq<char>> {
    first_iced(split_on(label, ','), 0)
}

/// Whether a fence label opts its block into compilation: it starts with
/// "rust" and one of its modifiers starts with "iced".
pub open spec fn is_eligible(label: Seq<char>) -> bool {
    starts_with(label, rust_tag()) && iced_modifier(label) is Some
}

/// The first index from `k` on where `p` occurs in `s`.
pub open spec fn find_from(s: Seq<char>, p: Seq<char>, k: int) -> Option<int>
    decreases s.len() + 1 - k,
{
    if k < 0 || k + p.len() > s.len() {
        None
    } else if s.subrange(k, k + p.len()) == p {
        Some(k)
    } else {
        find_from(s, p, k + 1)
    }
}

pub proof fn lemma_find_from_fits(s: Seq<char>, p: Seq<char>, k: int)
    ensures
        find_from(s, p, k) matches Some(j) ==> k <= j && j + p.len() <= s.len()
            && s.subrange(j, j + p.len()) == p,
    decreases s.len() + 1 - k,
{
    if !(k < 0 || k + p.len() > s.len()) && s.subrange(k, k + p.len()) != p {
        lemma_find_from_fits(s, p, k + 1);
    }
}

/// The height that a modifier of the form "iced(... height=H)" asks for:
/// what follows the first "height=" inside the parentheses.
pub open spec fn modifier_height(m: Seq<char>) -> Option<Seq<char>> {
    if m.len() >= 6 && starts_with(m, iced_open()) && m.last() == ')' {
        let inner = m.subrange(5, m.len() - 1);
        match find_from(inner, height_key(), 0) {
            Some(k) => Some(inner.subrange(k + 7, inner.len() as int)),
            None => None,
        }
    } else {
        None
    }
}

/// The embed height that a fence label asks for, if any.
pub open spec fn label_height(label: Seq<char>) -> Option<Seq<char>> {
    match iced_modifier(label) {
        Some(m) => modifier_height(m),
        None => None,
    }
}

/// The view of an optional string.
pub open spec fn opt_view(o: Option<String>) -> Option<Seq<char>> {
    match o {
        Some(s) => Some(s@),
        None => None,
    }
}

/// Whether `p` occurs in `s` at index `k`.
fn matches_at(s: &str, p: &str, k: usize) -> (r: bool)
    requires
        k + p@.len() <= s@.len(),
    ensures
        r == (s@.subrange(k as int, k + p@.len()) == p@),
{
    let n = p.unicode_len();
    let _ = s.unicode_len();
    let mut i: usize = 0;
    while i < n
        invariant
            s@.len() <= usize::MAX,
            n == p@.len(),
            k + n <= s@.len(),
            i <= n,
            s@.subrange(k as int, k + i) == p@.subrange(0, i as int),
        decreases n - i,
    {
        if s.get_char(k + i) != p.get_char(i) {
            assert(s@.subrange(k as int, k + n)[i as int] != p@[i as int]);
            return false;
        }
        assert(s@.subrange(k as int, k + i + 1) =~= s@.subrange(k as int, k + i).push(
            s@[k + i],
        ));
        assert(p@.subrange(0, i + 1) =~= p@.subrange(0, i as int).push(p@[i as int]));
        i = i + 1;
    }
    assert(p@.subrange(0, n as int) =~= p@);
    true
}

/// Whether `s` starts with `p`.
pub fn has_prefix(s: &str, p: &str) -> (r: bool)
    ensures
        r == starts_with(s@, p@),
{
    if p.unicode_len() > s.unicode_len() {
        return false;
    }
    matches_at(s, p, 0)
}

/// The first index where `p` occurs in `s`.
fn find(s: &str, p: &str) -> (r: Option<usize>)
    ensures
        match find_from(s@, p@, 0) {
            Some(k) => r == Some(k as usize),
            None => r is None,
        },
{
    let n = s.unicode_len();
    let m = p.unicode_len();
    if m > n {
        return None;
    }
    if m == 0 {
        assert(s@.subrange(0, 0) =~= p@);
        return Some(0);
    }
    let mut k: usize = 0;
    while k <= n - m
        invariant
            0 < m <= n,
            n == s@.len(),
            m == p@.len(),
            find_from(s@, p@, 0) == find_from(s@, p@, k as int),
        decreases n - k,
    {
        if matches_at(s, p, k) {
            return Some(k);
        }
        k = k + 1;
    }
    None
}

/// The first of `pieces` that starts with "iced".
fn first_iced_piece(pieces: &Vec<String>) -> (r: Option<usize>)
    ensures
        match first_iced(views(pieces@), 0) {
            Some(m) => r is Some && r->0 < pieces@.len() && pieces@[r->0 as int]@ == m,
            None => r is None,
        },
{
    let iced = "iced";
    proof {
        reveal_strlit("iced");
        assert(iced@ =~= iced_tag());
    }
    let mut i: usize = 0;
    while i < pieces.len()
        invariant
            i <= pieces.len(),
            iced@ == iced_tag(),
            first_iced(views(pieces@), 0) == first_iced(views(pieces@), i as int),
        decreases pieces.len() - i,
    {
        assert(views(pieces@)[i as int] == pieces@[i as int]@);
        if has_prefix(pieces[i].as_str(), iced) {
            return Some(i);
        }
        i = i + 1;
    }
    None
}

/// Whether a fence label opts its code block into compilation.
pub fn eligible(label: &str) -> (r: bool)
    ensures
        r == is_eligible(label@),
{
    let rust = "rust";
    proof {
        reveal_strlit("rust");
        assert(rust@ =~= rust_tag());
    }
    if !has_prefix(label, rust) {
        return false;
    }
    let pieces = split(label, ',');
    first_iced_piece(&pieces).is_some()
}

/// The embed height that a modifier asks for.
fn modifier_height_of(m: &str) -> (r: Option<String>)
    ensures
        opt_view(r) == modifier_height(m@),
{
    let open = "iced(";
    let key = "height=";
    proof {
        reveal_strlit("iced(");
        reveal_strlit("height=");
        assert(open@ =~= iced_open());
        assert(key@ =~= height_key());
    }
    let n = m.unicode_len();
    if n < 6 || !has_prefix(m, open) || m.get_char(n - 1) != ')' {
        return None;
    }
    let inner = m.substring_char(5, n - 1);
    match find(inner, key) {
        Some(k) => {
            let len = inner.unicode_len();
            proof {
                lemma_find_from_fits(inner@, key@, 0);
            }
            Some(String::from_str(inner.substring_char(k + 7, len)))
        },
        None => None,
    }
}

/// The embed height that a fence label asks for.
pub fn height(label: &str) -> (r: Option<String>)
    ensures
        opt_view(r) == label_height(label@),
{
    let pieces = split(label, ',');
    match first_iced_piece(&pieces) {
        Some(i) => modifier_height_of(pieces[i].as_str()),
        None => None,
    }
}

} // verus!
