//! Character-level string helpers shared by the serial-line filter, the
//! report builders and the configuration readers.
//!
//! Every helper has a spec-level twin over `Seq<char>`, so that the callers'
//! contracts can speak about line splitting, trimming and joining directly.

use vstd::prelude::*;

verus! {

/// A character with the Unicode `White_Space` property, the set that
/// `str::trim` removes at both ends.
pub open spec fn is_ws_char(c: char) -> bool {
    let u = c as u32;
    (0x09 <= u && u <= 0x0D) || u == 0x20 || u == 0x85 || u == 0xA0 || u == 0x1680 || (0x2000
        <= u && u <= 0x200A) || u == 0x2028 || u == 0x2029 || u == 0x202F || u == 0x205F || u
        == 0x3000
}

/// Executable test for [`is_ws_char`].
pub fn ws_char(c: char) -> (r: bool)
    ensures
        r == is_ws_char(c),
{
    let u = c as u32;
    (0x09 <= u && u <= 0x0D) || u == 0x20 || u == 0x85 || u == 0xA0 || u == 0x1680 || (0x2000
        <= u && u <= 0x200A) || u == 0x2028 || u == 0x2029 || u == 0x202F || u == 0x205F || u
        == 0x3000
}

/// `p` is a prefix of `s`.
pub open spec fn is_prefix(p: Seq<char>, s: Seq<char>) -> bool {
    p.len() <= s.len() && s.subrange(0, p.len() as int) == p
}

/// Executable prefix test, the meaning of `str::starts_with`.
pub fn starts_with(s: &str, p: &str) -> (r: bool)
    ensures
        r == is_prefix(p@, s@),
{
    let slen = s.unicode_len();
    let plen = p.unicode_len();
    if plen > slen {
        return false;
    }
    let mut i: usize = 0;
    while i < plen
        invariant
            0 <= i <= plen,
            plen == p@.len() <= s@.len(),
            forall|k: int| 0 <= k < i ==> s@[k] == p@[k],
        decreases plen - i,
    {
        if s.get_char(i) != p.get_char(i) {
            assert(s@.subrange(0, plen as int)[i as int] != p@[i as int]);
            return false;
        }
        i = i + 1;
    }
    assert(s@.subrange(0, plen as int) =~= p@);
    true
}

/// `n` occurs somewhere in `s` as a contiguous run.
pub open spec fn contains_seq(s: Seq<char>, n: Seq<char>) -> bool {
    exists|i: int|
        0 <= i && i + n.len() <= s.len() && #[trigger] s.subrange(i, i + n.len() as int) == n
}

/// Executable substring test, the meaning of `str::contains`.
pub fn str_contains(s: &str, n: &str) -> (r: bool)
    ensures
        r == contains_seq(s@, n@),
{
    let slen = s.unicode_len();
    let nlen = n.unicode_len();
    if nlen > slen {
        return false;
    }
    if nlen == 0 {
        assert(contains_seq(s@, n@)) by {
            assert(s@.subrange(0, 0 + n@.len() as int) =~= n@);
        }
        return true;
    }
    let lim = slen - nlen;
    let mut i: usize = 0;
    while i <= lim
        invariant
            0 <= i <= lim + 1,
            lim == slen - nlen,
            1 <= nlen,
            nlen == n@.len(),
            slen == s@.len(),
            nlen <= slen,
            forall|j: int| 0 <= j < i ==> #[trigger] s@.subrange(j, j + n@.len() as int) != n@,
        decreases lim + 1 - i,
    {
        let mut k: usize = 0;
        let mut matched = true;
        while k < nlen && matched
            invariant
                0 <= k <= nlen,
                lim == slen - nlen,
                i <= lim,
                nlen == n@.len(),
                slen == s@.len(),
                matched ==> forall|m: int| 0 <= m < k ==> s@[i + m] == n@[m],
                !matched ==> s@.subrange(i as int, i + n@.len() as int) != n@,
            decreases nlen - k + (if matched { 1int } else { 0int }),
        {
            if s.get_char(i + k) != n.get_char(k) {
                assert(s@.subrange(i as int, i + n@.len() as int)[k as int] != n@[k as int]);
                matched = false;
            } else {
                k = k + 1;
            }
        }
        if matched {
            assert(s@.subrange(i as int, i + n@.len() as int) =~= n@);
            return true;
        }
        i = i + 1;
    }
    assert forall|j: int| 0 <= j && j + n@.len() <= s@.len() implies #[trigger] s@.subrange(
        j,
        j + n@.len() as int,
    ) != n@ by {
        assert(j < i);
    }
    false
}

/// What is left of `s` after removing leading white space.
pub open spec fn spec_trim_start(s: Seq<char>) -> Seq<char>
    decreases s.len(),
{
    if s.len() > 0 && is_ws_char(s.first()) {
        spec_trim_start(s.drop_first())
    } else {
        s
    }
}

/// What is left of `s` after removing trailing white space.
pub open spec fn spec_trim_end(s: Seq<char>) -> Seq<char>
    decreases s.len(),
{
    if s.len() > 0 && is_ws_char(s.last()) {
        spec_trim_end(s.drop_last())
    } else {
        s
    }
}

/// What is left of `s` after removing white space at both ends: the meaning
/// of `str::trim`.
pub open spec fn spec_trim(s: Seq<char>) -> Seq<char> {
    spec_trim_end(spec_trim_start(s))
}

proof fn lemma_trim_start_at(s: Seq<char>, a: int)
    requires
        0 <= a <= s.len(),
        forall|k: int| 0 <= k < a ==> is_ws_char(s[k]),
        a < s.len() ==> !is_ws_char(s[a]),
    ensures
        spec_trim_start(s) == s.subrange(a, s.len() as int),
    decreases a,
{
    if a == 0 {
        assert(s.subrange(0, s.len() as int) =~= s);
    } else {
        assert(is_ws_char(s.first()));
        lemma_trim_start_at(s.drop_first(), a - 1);
        assert(s.drop_first().subrange(a - 1, s.drop_first().len() as int) =~= s.subrange(
            a,
            s.len() as int,
        ));
    }
}

proof fn lemma_trim_end_at(s: Seq<char>, b: int)
    requires
        0 <= b <= s.len(),
        forall|k: int| b <= k < s.len() ==> is_ws_char(s[k]),
        b > 0 ==> !is_ws_char(s[b - 1]),
    ensures
        spec_trim_end(s) == s.subrange(0, b),
    decreases s.len() - b,
{
    if b == s.len() {
        assert(s.subrange(0, s.len() as int) =~= s);
    } else {
        assert(is_ws_char(s.last()));
        lemma_trim_end_at(s.drop_last(), b);
        assert(s.drop_last().subrange(0, b) =~= s.subrange(0, b));
    }
}

/// Executable trim, the meaning of `str::trim`.
pub fn trim<'a>(s: &'a str) -> (r: &'a str)
    ensures
        r@ == spec_trim(s@),
{
    let len = s.unicode_len();
    let mut a: usize = 0;
    while a < len && ws_char(s.get_char(a))
        invariant
            0 <= a <= len,
            len == s@.len(),
            forall|k: int| 0 <= k < a ==> is_ws_char(s@[k]),
        decreases len - a,
    {
        a = a + 1;
    }
    proof {
        lemma_trim_start_at(s@, a as int);
    }
    let mut b: usize = len;
    while b > a && ws_char(s.get_char(b - 1))
        invariant
            a <= b <= len,
            len == s@.len(),
            forall|k: int| b <= k < len ==> is_ws_char(s@[k]),
        decreases b,
    {
        b = b - 1;
    }
    proof {
        let t = s@.subrange(a as int, len as int);
        assert(forall|k: int| b - a <= k < t.len() ==> is_ws_char(#[trigger] t[k]));
        if b > a {
            assert(!is_ws_char(t[b - a - 1]));
        }
        lemma_trim_end_at(t, b - a as int);
        assert(t.subrange(0, b - a as int) =~= s@.subrange(a as int, b as int));
    }
    s.substring_char(a, b)
}

/// Executable string equality at the character level.
pub fn str_eq(a: &str, b: &str) -> (r: bool)
    ensures
        r == (a@ == b@),
{
    let alen = a.unicode_len();
    let blen = b.unicode_len();
    if alen != blen {
        return false;
    }
    let mut i: usize = 0;
    while i < alen
        invariant
            0 <= i <= alen,
            alen == a@.len() == b@.len(),
            forall|k: int| 0 <= k < i ==> a@[k] == b@[k],
        decreases alen - i,
    {
        if a.get_char(i) != b.get_char(i) {
            return false;
        }
        i = i + 1;
    }
    proof {
        assert(a@ =~= b@);
    }
    true
}

/// What is left of `s` after removing leading characters that satisfy `p`.
pub open spec fn spec_trim_start_by(s: Seq<char>, p: spec_fn(char) -> bool) -> Seq<char>
    decreases s.len(),
{
    if s.len() > 0 && p(s.first()) {
        spec_trim_start_by(s.drop_first(), p)
    } else {
        s
    }
}

/// What is left of `s` after removing trailing characters that satisfy `p`.
pub open spec fn spec_trim_end_by(s: Seq<char>, p: spec_fn(char) -> bool) -> Seq<char>
    decreases s.len(),
{
    if s.len() > 0 && p(s.last()) {
        spec_trim_end_by(s.drop_last(), p)
    } else {
        s
    }
}

/// What is left of `s` after removing characters that satisfy `p` at both
/// ends: the meaning of `str::trim_matches`.
pub open spec fn spec_trim_by(s: Seq<char>, p: spec_fn(char) -> bool) -> Seq<char> {
    spec_trim_end_by(spec_trim_start_by(s, p), p)
}

pub proof fn lemma_trim_start_by_at(s: Seq<char>, p: spec_fn(char) -> bool, a: int)
    requires
        0 <= a <= s.len(),
        forall|k: int| 0 <= k < a ==> p(s[k]),
        a < s.len() ==> !p(s[a]),
    ensures
        spec_trim_start_by(s, p) == s.subrange(a, s.len() as int),
    decreases a,
{
    if a == 0 {
        assert(s.subrange(0, s.len() as int) =~= s);
    } else {
        assert(p(s.first()));
        lemma_trim_start_by_at(s.drop_first(), p, a - 1);
        assert(s.drop_first().subrange(a - 1, s.drop_first().len() as int) =~= s.subrange(
            a,
            s.len() as int,
        ));
    }
}

pub proof fn lemma_trim_end_by_at(s: Seq<char>, p: spec_fn(char) -> bool, b: int)
    requires
        0 <= b <= s.len(),
        forall|k: int| b <= k < s.len() ==> p(s[k]),
        b > 0 ==> !p(s[b - 1]),
    ensures
        spec_trim_end_by(s, p) == s.subrange(0, b),
    decreases s.len() - b,
{
    if b == s.len() {
        assert(s.subrange(0, s.len() as int) =~= s);
    } else {
        assert(p(s.last()));
        lemma_trim_end_by_at(s.drop_last(), p, b);
        assert(s.drop_last().subrange(0, b) =~= s.subrange(0, b));
    }
}

/// The pieces still to be produced when `rest` of the input remains and the
/// characters `cur` of the current piece were already consumed.
pub open spec fn spec_split_acc(rest: Seq<char>, cur: Seq<char>, sep: char) -> Seq<Seq<char>>
    decreases rest.len(),
{
    if rest.len() == 0 {
        seq![cur]
    } else if rest.first() == sep {
        seq![cur] + spec_split_acc(rest.drop_first(), Seq::<char>::empty(), sep)
    } else {
        spec_split_acc(rest.drop_first(), cur.push(rest.first()), sep)
    }
}

/// The meaning of `str::split` on one separator character: the pieces
/// between separators, empty pieces kept.
pub open spec fn spec_split(s: Seq<char>, sep: char) -> Seq<Seq<char>> {
    spec_split_acc(s, Seq::<char>::empty(), sep)
}

/// Executable split at one separator character.
pub fn split_char(s: &str, sep: char) -> (v: Vec<String>)
    ensures
        views(v@) == spec_split(s@, sep),
{
    let len = s.unicode_len();
    let mut v: Vec<String> = Vec::new();
    let mut st: usize = 0;
    let mut i: usize = 0;
    proof {
        assert(s@.skip(0) =~= s@);
        assert(s@.subrange(0, 0) =~= Seq::<char>::empty());
    }
    while i < len
        invariant
            0 <= st <= i <= len,
            len == s@.len(),
            spec_split(s@, sep) == views(v@) + spec_split_acc(
                s@.skip(i as int),
                s@.subrange(st as int, i as int),
                sep,
            ),
        decreases len - i,
    {
        let ghost prev_rest = s@.skip(i as int);
        let ghost prev_cur = s@.subrange(st as int, i as int);
        proof {
            assert(prev_rest.len() == len - i);
            assert(prev_rest.first() == s@[i as int]);
        }
        if s.get_char(i) == sep {
            let piece = s.substring_char(st, i).to_owned();
            proof {
                assert(piece@ == prev_cur);
                assert(prev_rest.drop_first() =~= s@.skip(i + 1));
                assert(s@.subrange(i + 1, i + 1) =~= Seq::<char>::empty());
                assert(views(v@) + spec_split_acc(prev_rest, prev_cur, sep) =~= views(
                    v@.push(piece),
                ) + spec_split_acc(s@.skip(i + 1), Seq::<char>::empty(), sep));
            }
            v.push(piece);
            st = i + 1;
        } else {
            proof {
                assert(prev_rest.drop_first() =~= s@.skip(i + 1));
                assert(prev_cur.push(s@[i as int]) =~= s@.subrange(st as int, i + 1));
            }
        }
        i = i + 1;
    }
    let piece = s.substring_char(st, len).to_owned();
    proof {
        assert(s@.skip(len as int) =~= Seq::<char>::empty());
        assert(views(v@) + spec_split_acc(
            Seq::<char>::empty(),
            s@.subrange(st as int, len as int),
            sep,
        ) =~= views(v@.push(piece)));
    }
    v.push(piece);
    v
}

/// Every element a filter keeps is an element of the sequence it was
/// filtered from.
pub proof fn lemma_filter_members(s: Seq<Seq<char>>, pred: spec_fn(Seq<char>) -> bool, j: int)
    requires
        0 <= j < s.filter(pred).len(),
    ensures
        exists|i: int| 0 <= i < s.len() && #[trigger] s[i] == s.filter(pred)[j],
    decreases s.len(),
{
    reveal(Seq::filter);
    if s.len() > 0 {
        let sub = s.drop_last().filter(pred);
        if pred(s.last()) && j == sub.len() {
            assert(s[s.len() - 1] == s.filter(pred)[j]);
        } else {
            lemma_filter_members(s.drop_last(), pred, j);
            let i = choose|i: int|
                0 <= i < s.drop_last().len() && #[trigger] s.drop_last()[i] == sub[j];
            assert(s[i] == s.filter(pred)[j]);
        }
    }
}

/// A line with one trailing carriage return removed, as `str::lines` does to
/// every line that a line feed terminated.
pub open spec fn strip_cr(l: Seq<char>) -> Seq<char> {
    if l.len() > 0 && l.last() == '\r' {
        l.drop_last()
    } else {
        l
    }
}

/// The lines still to be produced when `rest` of the input remains and the
/// characters `cur` of the current line were already consumed.
pub open spec fn spec_lines_acc(rest: Seq<char>, cur: Seq<char>) -> Seq<Seq<char>>
    decreases rest.len(),
{
    if rest.len() == 0 {
        if cur.len() == 0 {
            Seq::<Seq<char>>::empty()
        } else {
            seq![cur]
        }
    } else if rest.first() == '\n' {
        seq![strip_cr(cur)] + spec_lines_acc(rest.drop_first(), Seq::<char>::empty())
    } else {
        spec_lines_acc(rest.drop_first(), cur.push(rest.first()))
    }
}

/// The meaning of `str::lines`: split at line feeds, strip one carriage
/// return before each line feed, no empty line after a final line feed.
pub open spec fn spec_lines(s: Seq<char>) -> Seq<Seq<char>> {
    spec_lines_acc(s, Seq::<char>::empty())
}

/// The views of a sequence of owned strings.
pub open spec fn views(v: Seq<String>) -> Seq<Seq<char>> {
    v.map_values(|x: String| x@)
}

/// Executable line splitting, the meaning of `str::lines`.
pub fn str_lines(s: &str) -> (v: Vec<String>)
    ensures
        views(v@) == spec_lines(s@),
{
    let len = s.unicode_len();
    let mut v: Vec<String> = Vec::new();
    let mut st: usize = 0;
    let mut i: usize = 0;
    proof {
        assert(s@.skip(0) =~= s@);
        assert(s@.subrange(0, 0) =~= Seq::<char>::empty());
        assert(views(v@) + spec_lines_acc(s@, Seq::<char>::empty()) =~= spec_lines(s@));
    }
    while i < len
        invariant
            0 <= st <= i <= len,
            len == s@.len(),
            spec_lines(s@) == views(v@) + spec_lines_acc(
                s@.skip(i as int),
                s@.subrange(st as int, i as int),
            ),
        decreases len - i,
    {
        let ghost prev_rest = s@.skip(i as int);
        let ghost prev_cur = s@.subrange(st as int, i as int);
        proof {
            assert(prev_rest.len() == len - i);
            assert(prev_rest.first() == s@[i as int]);
        }
        if s.get_char(i) == '\n' {
            let end = if i > st && s.get_char(i - 1) == '\r' {
                i - 1
            } else {
                i
            };
            let line = s.substring_char(st, end).to_owned();
            proof {
                assert(strip_cr(prev_cur) =~= s@.subrange(st as int, end as int));
                assert(views(v@.push(line)) =~= views(v@).push(line@));
                assert(prev_rest.drop_first() =~= s@.skip(i + 1));
                assert(s@.subrange(i + 1, i + 1) =~= Seq::<char>::empty());
                assert(views(v@) + spec_lines_acc(prev_rest, prev_cur) =~= views(v@.push(line))
                    + spec_lines_acc(s@.skip(i + 1), Seq::<char>::empty()));
            }
            v.push(line);
            st = i + 1;
        } else {
            proof {
                assert(prev_rest.drop_first() =~= s@.skip(i + 1));
                assert(prev_cur.push(s@[i as int]) =~= s@.subrange(st as int, i + 1));
            }
        }
        i = i + 1;
    }
    proof {
        assert(s@.skip(len as int) =~= Seq::<char>::empty());
    }
    if st < len {
        let line = s.substring_char(st, len).to_owned();
        proof {
            assert(views(v@.push(line)) =~= views(v@).push(line@));
            assert(views(v@) + spec_lines_acc(s@.skip(len as int), s@.subrange(st as int, len as int))
                =~= views(v@.push(line)));
        }
        v.push(line);
    } else {
        proof {
            assert(s@.subrange(st as int, len as int) =~= Seq::<char>::empty());
            assert(views(v@) + spec_lines_acc(Seq::<char>::empty(), Seq::<char>::empty()) =~= views(
                v@,
            ));
        }
    }
    v
}

/// The elements of `ls` concatenated with `sep` between each two.
pub open spec fn spec_join(ls: Seq<Seq<char>>, sep: Seq<char>) -> Seq<char>
    decreases ls.len(),
{
    if ls.len() == 0 {
        Seq::<char>::empty()
    } else if ls.len() == 1 {
        ls[0]
    } else {
        ls[0] + sep + spec_join(ls.drop_first(), sep)
    }
}

pub proof fn lemma_join_push(ls: Seq<Seq<char>>, x: Seq<char>, sep: Seq<char>)
    ensures
        ls.len() == 0 ==> spec_join(ls.push(x), sep) == x,
        ls.len() > 0 ==> spec_join(ls.push(x), sep) =~= spec_join(ls, sep) + sep + x,
    decreases ls.len(),
{
    if ls.len() == 0 {
        assert(ls.push(x)[0] == x);
    } else {
        lemma_join_push(ls.drop_first(), x, sep);
        assert(ls.push(x).drop_first() =~= ls.drop_first().push(x));
        if ls.len() == 1 {
            assert(ls.drop_first().len() == 0);
            assert(spec_join(ls.push(x), sep) == ls[0] + sep + spec_join(
                ls.push(x).drop_first(),
                sep,
            ));
        }
    }
}

/// Executable join with a separator, the meaning of `[..].join(sep)`.
pub fn join_lines(v: &Vec<String>, sep: &str) -> (r: String)
    ensures
        r@ == spec_join(views(v@), sep@),
{
    let mut r = String::new();
    let mut i: usize = 0;
    while i < v.len()
        invariant
            0 <= i <= v@.len(),
            r@ == spec_join(views(v@).take(i as int), sep@),
        decreases v@.len() - i,
    {
        let ghost pre = views(v@).take(i as int);
        if i > 0 {
            r.append(sep);
        }
        r.append(v[i].as_str());
        proof {
            assert(views(v@).take(i + 1) =~= pre.push(v@[i as int]@));
            lemma_join_push(pre, v@[i as int]@, sep@);
        }
        i = i + 1;
    }
    proof {
        assert(views(v@).take(v@.len() as int) =~= views(v@));
    }
    r
}

/// The decimal digit character for a value below ten.
pub open spec fn dec_digit_char(d: int) -> char {
    if d == 0 {
        '0'
    } else if d == 1 {
        '1'
    } else if d == 2 {
        '2'
    } else if d == 3 {
        '3'
    } else if d == 4 {
        '4'
    } else if d == 5 {
        '5'
    } else if d == 6 {
        '6'
    } else if d == 7 {
        '7'
    } else if d == 8 {
        '8'
    } else {
        '9'
    }
}

/// The decimal digit string of a nonnegative value, without sign and without
/// leading zeroes (except for the value zero itself).
pub open spec fn spec_dec(n: int) -> Seq<char>
    decreases n,
{
    if n < 10 {
        seq![dec_digit_char(n)]
    } else {
        spec_dec(n / 10) + seq![dec_digit_char(n % 10)]
    }
}

/// The decimal string of a signed value: a minus sign before the digits of
/// the magnitude when the value is negative.
pub open spec fn spec_dec_signed(n: int) -> Seq<char> {
    if n >= 0 {
        spec_dec(n)
    } else {
        seq!['-'] + spec_dec(-n)
    }
}

pub fn dec_digit_str(d: u64) -> (r: &'static str)
    requires
        d < 10,
    ensures
        r@ == seq![dec_digit_char(d as int)],
{
    proof {
        reveal_strlit("0");
        reveal_strlit("1");
        reveal_strlit("2");
        reveal_strlit("3");
        reveal_strlit("4");
        reveal_strlit("5");
        reveal_strlit("6");
        reveal_strlit("7");
        reveal_strlit("8");
        reveal_strlit("9");
    }
    let r = if d == 0 {
        "0"
    } else if d == 1 {
        "1"
    } else if d == 2 {
        "2"
    } else if d == 3 {
        "3"
    } else if d == 4 {
        "4"
    } else if d == 5 {
        "5"
    } else if d == 6 {
        "6"
    } else if d == 7 {
        "7"
    } else if d == 8 {
        "8"
    } else {
        "9"
    };
    proof {
        assert(r@ =~= seq![dec_digit_char(d as int)]);
    }
    r
}

/// Append the decimal digits of `n` to `out`.
pub fn push_dec_u64(out: &mut String, n: u64)
    ensures
        final (out)@ == old(out)@ + spec_dec(n as int),
    decreases n,
{
    if n < 10 {
        out.append(dec_digit_str(n));
    } else {
        push_dec_u64(out, n / 10);
        out.append(dec_digit_str(n % 10));
        proof {
            assert(old(out)@ + spec_dec(n as int) =~= (old(out)@ + spec_dec(n as int / 10)) + seq![
                dec_digit_char(n as int % 10),
            ]);
        }
    }
}

/// Append the decimal digits of a wide unsigned value to `out`.
pub fn push_dec_u128(out: &mut String, n: u128)
    ensures
        final (out)@ == old(out)@ + spec_dec(n as int),
    decreases n,
{
    if n < 10 {
        out.append(dec_digit_str(n as u64));
    } else {
        push_dec_u128(out, n / 10);
        out.append(dec_digit_str((n % 10) as u64));
        proof {
            assert(old(out)@ + spec_dec(n as int) =~= (old(out)@ + spec_dec(n as int / 10)) + seq![
                dec_digit_char(n as int % 10),
            ]);
        }
    }
}

/// The decimal string of an unsigned value.
pub fn u64_to_string(n: u64) -> (r: String)
    ensures
        r@ == spec_dec(n as int),
{
    let mut r = String::new();
    push_dec_u64(&mut r, n);
    proof {
        assert(Seq::<char>::empty() + spec_dec(n as int) =~= spec_dec(n as int));
    }
    r
}

/// Append the decimal string of a signed value to `out`.
pub fn push_dec_i64(out: &mut String, n: i64)
    ensures
        final (out)@ == old(out)@ + spec_dec_signed(n as int),
{
    if n >= 0 {
        push_dec_u64(out, n as u64);
    } else {
        proof {
            reveal_strlit("-");
        }
        out.append("-");
        let mag: u64 = ((-(n as i128)) as u64);
        let ghost mid = out@;
        push_dec_u64(out, mag);
        proof {
            assert(old(out)@ + spec_dec_signed(n as int) =~= (old(out)@ + "-"@) + spec_dec(
                mag as int,
            ));
        }
    }
}

/// The decimal string of a signed value.
pub fn i64_to_string(n: i64) -> (r: String)
    ensures
        r@ == spec_dec_signed(n as int),
{
    let mut r = String::new();
    push_dec_i64(&mut r, n);
    proof {
        assert(Seq::<char>::empty() + spec_dec_signed(n as int) =~= spec_dec_signed(n as int));
    }
    r
}

/// The lower-case hexadecimal digit character for a value below sixteen.
pub open spec fn hex_digit_char(d: int) -> char {
    if d < 10 {
        dec_digit_char(d)
    } else if d == 10 {
        'a'
    } else if d == 11 {
        'b'
    } else if d == 12 {
        'c'
    } else if d == 13 {
        'd'
    } else if d == 14 {
        'e'
    } else {
        'f'
    }
}

/// The two lower-case hexadecimal digits of one byte.
pub open spec fn spec_byte_hex(b: int) -> Seq<char> {
    seq![hex_digit_char(b / 16), hex_digit_char(b % 16)]
}

fn hex_digit_str(d: u8) -> (r: &'static str)
    requires
        d < 16,
    ensures
        r@ == seq![hex_digit_char(d as int)],
{
    if d < 10 {
        dec_digit_str(d as u64)
    } else {
        proof {
            reveal_strlit("a");
            reveal_strlit("b");
            reveal_strlit("c");
            reveal_strlit("d");
            reveal_strlit("e");
            reveal_strlit("f");
        }
        let r = if d == 10 {
            "a"
        } else if d == 11 {
            "b"
        } else if d == 12 {
            "c"
        } else if d == 13 {
            "d"
        } else if d == 14 {
            "e"
        } else {
            "f"
        };
        proof {
            assert(r@ =~= seq![hex_digit_char(d as int)]);
        }
        r
    }
}

/// Append the two hexadecimal digits of `b` to `out`.
pub fn push_byte_hex(out: &mut String, b: u8)
    ensures
        final (out)@ == old(out)@ + spec_byte_hex(b as int),
{
    out.append(hex_digit_str(b / 16));
    out.append(hex_digit_str(b % 16));
    proof {
        assert(old(out)@ + spec_byte_hex(b as int) =~= (old(out)@ + seq![
            hex_digit_char(b as int / 16),
        ]) + seq![hex_digit_char(b as int % 16)]);
    }
}

/// A character that `u32::from_str_radix` accepts as a base-sixteen digit:
/// a base-ten digit or a letter from `a` to `f` in either case.
pub open spec fn is_hex_digit(c: char) -> bool {
    let u = c as int;
    (0x30 <= u && u <= 0x39) || (0x61 <= u && u <= 0x66) || (0x41 <= u && u <= 0x46)
}

/// The value of one base-sixteen digit character.
pub open spec fn hex_val(c: char) -> int {
    let u = c as int;
    if 0x30 <= u && u <= 0x39 {
        u - 0x30
    } else if 0x61 <= u && u <= 0x66 {
        10 + u - 0x61
    } else {
        10 + u - 0x41
    }
}

/// Every character of `s` is a base-sixteen digit.
pub open spec fn all_hex_digits(s: Seq<char>) -> bool {
    forall|k: int| 0 <= k < s.len() ==> is_hex_digit(#[trigger] s[k])
}

/// The base-sixteen value of a digit string.
pub open spec fn spec_hex_value(s: Seq<char>) -> int
    decreases s.len(),
{
    if s.len() == 0 {
        0
    } else {
        spec_hex_value(s.drop_last()) * 16 + hex_val(s.last())
    }
}

/// The digit part of a number string: what follows one optional leading
/// plus sign.
pub open spec fn spec_num_body(s: Seq<char>) -> Seq<char> {
    if s.len() > 0 && s[0] == '+' {
        s.drop_first()
    } else {
        s
    }
}

/// A base-sixteen digit string has a nonnegative value.
pub proof fn lemma_hex_value_nonneg(s: Seq<char>)
    requires
        all_hex_digits(s),
    ensures
        spec_hex_value(s) >= 0,
    decreases s.len(),
{
    if s.len() > 0 {
        assert(all_hex_digits(s.drop_last())) by {
            assert(forall|k: int| 0 <= k < s.len() - 1 ==> s.drop_last()[k] == #[trigger] s[k]);
        }
        lemma_hex_value_nonneg(s.drop_last());
    }
}

/// The meaning of `u32::from_str_radix(s, 16)`: `Some` exactly when one
/// optional plus sign is followed by one or more base-sixteen digits whose
/// value fits.
pub fn parse_hex_u32(s: &str) -> (r: Option<u32>)
    ensures
        ({
            let b = spec_num_body(s@);
            &&& (r is Some <==> b.len() > 0 && all_hex_digits(b) && spec_hex_value(b)
                <= u32::MAX)
            &&& (r is Some ==> r->Some_0 == spec_hex_value(b))
        }),
{
    let len = s.unicode_len();
    let st: usize = if len > 0 && s.get_char(0) == '+' {
        1
    } else {
        0
    };
    let ghost b = spec_num_body(s@);
    proof {
        assert(b =~= s@.subrange(st as int, len as int));
    }
    if st == len {
        return None;
    }
    let mut i: usize = st;
    let mut v: u64 = 0;
    let mut over = false;
    while i < len
        invariant
            st <= i <= len,
            len == s@.len(),
            b == spec_num_body(s@),
            b == s@.subrange(st as int, len as int),
            all_hex_digits(s@.subrange(st as int, i as int)),
            !over ==> v == spec_hex_value(s@.subrange(st as int, i as int)) && v <= u32::MAX,
            over ==> spec_hex_value(s@.subrange(st as int, i as int)) > u32::MAX,
        decreases len - i,
    {
        let c = s.get_char(i);
        let u = c as u32;
        let dopt: Option<u64> = if 0x30 <= u && u <= 0x39 {
            Some((u - 0x30) as u64)
        } else if 0x61 <= u && u <= 0x66 {
            Some((u - 0x61 + 10) as u64)
        } else if 0x41 <= u && u <= 0x46 {
            Some((u - 0x41 + 10) as u64)
        } else {
            None
        };
        let d: u64 = match dopt {
            Some(d) => d,
            None => {
                proof {
                    assert(!is_hex_digit(c));
                    assert(0 <= i - st < b.len());
                    assert(b[i - st] == s@[i as int]);
                    assert(!is_hex_digit(b[i - st]));
                    assert(!all_hex_digits(b));
                }
                return None;
            },
        };
        let ghost pre = s@.subrange(st as int, i as int);
        let ghost cur = s@.subrange(st as int, i + 1);
        proof {
            assert(is_hex_digit(c) && d == hex_val(c));
            assert(cur.drop_last() =~= pre);
            assert(spec_hex_value(cur) == spec_hex_value(pre) * 16 + hex_val(c));
            assert(all_hex_digits(cur)) by {
                assert(forall|k: int| 0 <= k < i - st ==> cur[k] == #[trigger] pre[k]);
            }
        }
        if !over {
            if v > (0xFFFF_FFFFu64 - d) / 16 {
                over = true;
                proof {
                    assert(spec_hex_value(pre) * 16 + hex_val(c) > u32::MAX);
                }
            } else {
                v = v * 16 + d;
            }
        } else {
            proof {
                lemma_hex_value_nonneg(pre);
                assert(spec_hex_value(pre) * 16 >= spec_hex_value(pre)) by {
                    assert(spec_hex_value(pre) * 15 >= 0) by (nonlinear_arith)
                        requires
                            spec_hex_value(pre) >= 0,
                    ;
                }
            }
        }
        i = i + 1;
    }
    proof {
        assert(s@.subrange(st as int, len as int) == b);
    }
    if over {
        None
    } else {
        Some(v as u32)
    }
}

/// A character that `u8::from_str` accepts as a base-ten digit.
pub open spec fn is_dec_digit(c: char) -> bool {
    0x30 <= c as int && c as int <= 0x39
}

/// Every character of `s` is a base-ten digit.
pub open spec fn all_dec_digits(s: Seq<char>) -> bool {
    forall|k: int| 0 <= k < s.len() ==> is_dec_digit(#[trigger] s[k])
}

/// The base-ten value of a digit string.
pub open spec fn spec_dec_value(s: Seq<char>) -> int
    decreases s.len(),
{
    if s.len() == 0 {
        0
    } else {
        spec_dec_value(s.drop_last()) * 10 + (s.last() as int - '0' as int)
    }
}

proof fn lemma_dec_value_nonneg(s: Seq<char>)
    requires
        all_dec_digits(s),
    ensures
        spec_dec_value(s) >= 0,
    decreases s.len(),
{
    if s.len() > 0 {
        assert(all_dec_digits(s.drop_last())) by {
            assert(forall|k: int| 0 <= k < s.len() - 1 ==> s.drop_last()[k] == #[trigger] s[k]);
        }
        lemma_dec_value_nonneg(s.drop_last());
    }
}

/// The meaning of `str::parse::<u8>`: `Some` exactly when one optional plus
/// sign is followed by one or more base-ten digits whose value fits one byte.
pub fn parse_dec_u8(s: &str) -> (r: Option<u8>)
    ensures
        ({
            let b = spec_num_body(s@);
            &&& (r is Some <==> b.len() > 0 && all_dec_digits(b) && spec_dec_value(b) <= 255)
            &&& (r is Some ==> r->Some_0 == spec_dec_value(b))
        }),
{
    let len = s.unicode_len();
    let st: usize = if len > 0 && s.get_char(0) == '+' {
        1
    } else {
        0
    };
    let ghost b = spec_num_body(s@);
    proof {
        assert(b =~= s@.subrange(st as int, len as int));
    }
    if st == len {
        return None;
    }
    let mut i: usize = st;
    let mut v: u64 = 0;
    let mut over = false;
    while i < len
        invariant
            st <= i <= len,
            len == s@.len(),
            b == spec_num_body(s@),
            b == s@.subrange(st as int, len as int),
            all_dec_digits(s@.subrange(st as int, i as int)),
            !over ==> v == spec_dec_value(s@.subrange(st as int, i as int)) && v <= 255,
            over ==> spec_dec_value(s@.subrange(st as int, i as int)) > 255,
        decreases len - i,
    {
        let c = s.get_char(i);
        let u = c as u32;
        if !(0x30 <= u && u <= 0x39) {
            proof {
                assert(!is_dec_digit(c));
                assert(0 <= i - st < b.len());
                assert(b[i - st] == s@[i as int]);
                assert(!is_dec_digit(b[i - st]));
                assert(!all_dec_digits(b));
            }
            return None;
        }
        let d: u64 = (u - 0x30) as u64;
        let ghost pre = s@.subrange(st as int, i as int);
        let ghost cur = s@.subrange(st as int, i + 1);
        proof {
            assert(is_dec_digit(c) && d == c as int - '0' as int);
            assert(cur.drop_last() =~= pre);
            assert(all_dec_digits(cur)) by {
                assert(forall|k: int| 0 <= k < i - st ==> cur[k] == #[trigger] pre[k]);
            }
        }
        if !over {
            if v * 10 + d > 255 {
                over = true;
            } else {
                v = v * 10 + d;
            }
        } else {
            proof {
                lemma_dec_value_nonneg(pre);
                assert(spec_dec_value(pre) * 10 >= spec_dec_value(pre)) by {
                    assert(spec_dec_value(pre) * 9 >= 0) by (nonlinear_arith)
                        requires
                            spec_dec_value(pre) >= 0,
                    ;
                }
            }
        }
        i = i + 1;
    }
    if over {
        None
    } else {
        Some(v as u8)
    }
}

/// What is left of `s` after removing every occurrence of `pat`, scanning
/// left to right: the meaning of `str::replace(pat, "")`.
pub open spec fn spec_remove_all(s: Seq<char>, pat: Seq<char>) -> Seq<char>
    decreases s.len(),
{
    if pat.len() == 0 || s.len() < pat.len() {
        s
    } else if is_prefix(pat, s) {
        spec_remove_all(s.skip(pat.len() as int), pat)
    } else {
        seq![s.first()] + spec_remove_all(s.drop_first(), pat)
    }
}

/// Executable removal of every occurrence of `pat`, the meaning of
/// `str::replace(pat, "")`.
pub fn remove_all(s: &str, pat: &str) -> (r: String)
    ensures
        r@ == spec_remove_all(s@, pat@),
{
    let len = s.unicode_len();
    let patlen = pat.unicode_len();
    if patlen == 0 {
        return s.to_owned();
    }
    let mut r = String::new();
    let mut i: usize = 0;
    proof {
        assert(s@.skip(0) =~= s@);
        assert(Seq::<char>::empty() + spec_remove_all(s@, pat@) =~= spec_remove_all(s@, pat@));
    }
    while i < len
        invariant
            0 <= i <= len,
            len == s@.len(),
            patlen == pat@.len(),
            patlen >= 1,
            spec_remove_all(s@, pat@) == r@ + spec_remove_all(s@.skip(i as int), pat@),
        decreases len - i,
    {
        let ghost rest = s@.skip(i as int);
        let hit = if patlen <= len - i {
            starts_with(s.substring_char(i, len), pat)
        } else {
            false
        };
        proof {
            assert(rest.len() == len - i);
            if i + patlen <= len {
                assert(s@.subrange(i as int, len as int).subrange(0, patlen as int) =~= rest.subrange(
                    0,
                    patlen as int,
                ));
            }
        }
        if hit {
            proof {
                assert(is_prefix(pat@, rest));
                assert(rest.skip(patlen as int) =~= s@.skip(i + patlen));
            }
            i = i + patlen;
        } else {
            proof {
                assert(!is_prefix(pat@, rest));
                assert(rest.first() == s@[i as int]);
                assert(rest.drop_first() =~= s@.skip(i + 1));
            }
            let c = s.substring_char(i, i + 1);
            let ghost rpre = r@;
            r.append(c);
            proof {
                assert(c@ =~= seq![s@[i as int]]);
                assert(rpre + (seq![rest.first()] + spec_remove_all(rest.drop_first(), pat@))
                    =~= (rpre + c@) + spec_remove_all(s@.skip(i + 1), pat@));
            }
            i = i + 1;
        }
    }
    proof {
        assert(s@.skip(len as int) =~= Seq::<char>::empty());
        assert(r@ + spec_remove_all(Seq::<char>::empty(), pat@) =~= r@);
    }
    r
}

} // verus!
