//! Line handling and number rendering on character sequences.
use vstd::prelude::*;
use vstd::string::*;

verus! {

/// Whether `s` begins with `p`.
pub open spec fn starts_with(s: Seq<char>, p: Seq<char>) -> bool {
    p.len() <= s.len() && s.subrange(0, p.len() as int) == p
}

/// The pieces of `s` between occurrences of `sep`; always at least one piece.
pub open spec fn split_on(s: Seq<char>, sep: char) -> Seq<Seq<char>>
    decreases s.len(),
{
    if s.len() == 0 {
        seq![Seq::empty()]
    } else {
        let r = split_on(s.drop_last(), sep);
        if s.last() == sep {
            r.push(Seq::empty())
        } else {
            r.update(r.len() - 1, r.last().push(s.last()))
        }
    }
}

pub proof fn lemma_split_on_nonempty(s: Seq<char>, sep: char)
    ensures
        split_on(s, sep).len() >= 1,
    decreases s.len(),
{
    if s.len() > 0 {
        lemma_split_on_nonempty(s.drop_last(), sep);
    }
}

/// A line without the carriage return that ended it.
pub open spec fn drop_cr(l: Seq<char>) -> Seq<char> {
    if l.len() > 0 && l.last() == '\r' {
        l.drop_last()
    } else {
        l
    }
}

/// The lines of `s`: split at "\n" and "\r\n", terminators removed, and a final
/// line ending adds no empty line.
pub open spec fn lines_of(s: Seq<char>) -> Seq<Seq<char>> {
    let p = split_on(s, '\n');
    let init = p.drop_last().map_values(|l: Seq<char>| drop_cr(l));
    if p.last().len() == 0 {
        init
    } else {
        init.push(p.last())
    }
}

/// The lines of `ls` joined with one "\n" between neighbours.
pub open spec fn join_lines(ls: Seq<Seq<char>>) -> Seq<char>
    decreases ls.len(),
{
    if ls.len() == 0 {
        Seq::empty()
    } else if ls.len() == 1 {
        ls[0]
    } else {
        join_lines(ls.drop_last()) + seq!['\n'] + ls.last()
    }
}

/// The views of a vector of strings.
pub open spec fn views(v: Seq<String>) -> Seq<Seq<char>> {
    v.map_values(|s: String| s@)
}

/// The pieces of `s` between occurrences of `sep`.
pub fn split(s: &str, sep: char) -> (r: Vec<String>)
    ensures
        views(r@) == split_on(s@, sep),
{
    let n = s.unicode_len();
    let mut done: Vec<String> = Vec::new();
    let mut start: usize = 0;
    let mut i: usize = 0;
    assert(s@.subrange(0, 0) =~= Seq::<char>::empty());
    assert(views(done@).push(s@.subrange(0, 0)) =~= split_on(Seq::<char>::empty(), sep));
    while i < n
        invariant
            n == s@.len(),
            start <= i <= n,
            views(done@).push(s@.subrange(start as int, i as int)) == split_on(
                s@.subrange(0, i as int),
                sep,
            ),
        decreases n - i,
    {
        let c = s.get_char(i);
        let ghost prefix = s@.subrange(0, i + 1);
        assert(prefix.drop_last() =~= s@.subrange(0, i as int));
        let ghost before = views(done@);
        if c == sep {
            done.push(String::from_str(s.substring_char(start, i)));
            assert(views(done@) =~= before.push(s@.subrange(start as int, i as int)));
            start = i + 1;
            assert(s@.subrange(start as int, i + 1) =~= Seq::<char>::empty());
        } else {
            assert(s@.subrange(start as int, i + 1) =~= s@.subrange(start as int, i as int).push(
                c,
            ));
            assert(views(done@).push(s@.subrange(start as int, i + 1)) =~= before.push(
                s@.subrange(start as int, i as int),
            ).update(before.len() as int, s@.subrange(start as int, i as int).push(c)));
        }
        i = i + 1;
    }
    let ghost before = views(done@);
    done.push(String::from_str(s.substring_char(start, n)));
    assert(views(done@) =~= before.push(s@.subrange(start as int, n as int)));
    assert(s@.subrange(0, n as int) =~= s@);
    done
}

/// A line without the carriage return that ended it.
fn without_cr(line: &str) -> (r: String)
    ensures
        r@ == drop_cr(line@),
{
    let n = line.unicode_len();
    if n > 0 && line.get_char(n - 1) == '\r' {
        String::from_str(line.substring_char(0, n - 1))
    } else {
        String::from_str(line)
    }
}

/// The lines of `s`: split at "\n" and "\r\n", terminators removed, and a
/// final line ending adds no empty line.
pub fn split_lines(s: &str) -> (r: Vec<String>)
    ensures
        views(r@) == lines_of(s@),
{
    let pieces = split(s, '\n');
    let ghost p = split_on(s@, '\n');
    proof {
        lemma_split_on_nonempty(s@, '\n');
    }
    let n = pieces.len();
    let mut r: Vec<String> = Vec::new();
    let mut i: usize = 0;
    while i + 1 < n
        invariant
            views(pieces@) == p,
            n == p.len(),
            n >= 1,
            i + 1 <= n,
            views(r@) =~= p.drop_last().subrange(0, i as int).map_values(|l: Seq<char>| drop_cr(l)),
        decreases n - i,
    {
        assert(views(pieces@)[i as int] == pieces@[i as int]@);
        let line = without_cr(pieces[i].as_str());
        let ghost before = views(r@);
        r.push(line);
        assert(views(r@) =~= before.push(line@));
        assert(p.drop_last().subrange(0, i + 1) =~= p.drop_last().subrange(0, i as int).push(
            p[i as int],
        ));
        i = i + 1;
    }
    assert(p.drop_last().subrange(0, i as int) =~= p.drop_last());
    assert(views(pieces@)[n - 1] == pieces@[n - 1]@);
    if pieces[n - 1].unicode_len() > 0 {
        let ghost before = views(r@);
        r.push(String::from_str(pieces[n - 1].as_str()));
        assert(views(r@) =~= before.push(p.last()));
    }
    r
}

/// Joins `lines` with "\n".
pub fn join(lines: &Vec<String>) -> (r: String)
    ensures
        r@ == join_lines(views(lines@)),
{
    let mut r = String::new();
    let mut i: usize = 0;
    while i < lines.len()
        invariant
            i <= lines.len(),
            r@ == join_lines(views(lines@).subrange(0, i as int)),
        decreases lines.len() - i,
    {
        let ghost ls = views(lines@);
        assert(ls.subrange(0, i + 1).drop_last() =~= ls.subrange(0, i as int));
        if i > 0 {
            r.append("\n");
            proof {
                reveal_strlit("\n");
            }
        } else {
            assert(ls.subrange(0, 1) =~= seq![ls[0]]);
        }
        r.append(lines[i].as_str());
        i = i + 1;
    }
    assert(views(lines@).subrange(0, i as int) =~= views(lines@));
    r
}

/// The characters used as digits, least value first.
pub open spec fn digit_chars() -> Seq<char> {
    seq!['0', '1', '2', '3', '4', '5', '6', '7', '8', '9', 'a', 'b', 'c', 'd', 'e', 'f']
}

/// `n` in decimal, without leading zeros.
pub open spec fn decimal(n: nat) -> Seq<char>
    decreases n,
{
    if n < 10 {
        seq![digit_chars()[n as int]]
    } else {
        decimal(n / 10) + seq![digit_chars()[(n % 10) as int]]
    }
}

/// A byte as two lower-case hexadecimal digits.
pub open spec fn byte_hex(b: u8) -> Seq<char> {
    seq![digit_chars()[(b / 16) as int], digit_chars()[(b % 16) as int]]
}

/// The bytes of `s`, each as two lower-case hexadecimal digits, one after the
/// other.
pub open spec fn hex_of(s: Seq<u8>) -> Seq<char>
    decreases s.len(),
{
    if s.len() == 0 {
        Seq::empty()
    } else {
        hex_of(s.drop_last()) + byte_hex(s.last())
    }
}

/// The digit of value `d` as a string.
fn digit(d: u64) -> (r: &'static str)
    requires
        d < 16,
    ensures
        r@ == seq![digit_chars()[d as int]],
{
    let all = "0123456789abcdef";
    proof {
        reveal_strlit("0123456789abcdef");
        assert(all@ =~= digit_chars());
    }
    all.substring_char(d as usize, d as usize + 1)
}

/// `n` in decimal.
pub fn decimal_string(n: u64) -> (r: String)
    ensures
        r@ == decimal(n as nat),
{
    let mut m = n;
    let mut r = String::new();
    while m >= 10
        invariant
            decimal(n as nat) == decimal(m as nat) + r@,
        decreases m,
    {
        let ghost before = r@;
        r = String::from_str(digit(m % 10)).concat(r.as_str());
        assert(decimal(m as nat) == decimal((m / 10) as nat) + seq![digit_chars()[(m % 10) as int]]);
        assert(decimal(m as nat) + before =~= decimal((m / 10) as nat) + r@);
        m = m / 10;
    }
    let ghost before = r@;
    r = String::from_str(digit(m)).concat(r.as_str());
    assert(decimal(n as nat) =~= r@);
    r
}

/// The bytes of `bytes` in lower-case hexadecimal, two digits each.
pub fn hex_string(bytes: &Vec<u8>) -> (r: String)
    ensures
        r@ == hex_of(bytes@),
        r@.len() == 2 * bytes@.len(),
{
    let mut r = String::new();
    let mut i: usize = 0;
    while i < bytes.len()
        invariant
            i <= bytes.len(),
            r@ == hex_of(bytes@.subrange(0, i as int)),
        decreases bytes.len() - i,
    {
        let b = bytes[i];
        assert(bytes@.subrange(0, i + 1).drop_last() =~= bytes@.subrange(0, i as int));
        r.append(digit((b / 16) as u64));
        r.append(digit((b % 16) as u64));
        assert(r@ =~= hex_of(bytes@.subrange(0, i + 1)));
        i = i + 1;
    }
    assert(bytes@.subrange(0, i as int) =~= bytes@);
    proof {
        lemma_hex_len(bytes@);
    }
    r
}

pub proof fn lemma_hex_len(s: Seq<u8>)
    ensures
        hex_of(s).len() == 2 * s.len(),
    decreases s.len(),
{
    if s.len() > 0 {
        lemma_hex_len(s.drop_last());
    }
}

} // verus!
