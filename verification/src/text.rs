use vstd::prelude::*;

verus! {

/// The character of decimal digit `d`.
pub open spec fn digit_char(d: nat) -> char {
    (48 + d) as char
}

/// The decimal representation of `n`, without leading zeros.
pub open spec fn decimal(n: nat) -> Seq<char>
    decreases n,
{
    if n < 10 {
        seq![digit_char(n)]
    } else {
        decimal(n / 10).push(digit_char(n % 10))
    }
}

fn digit_str(d: u128) -> (r: &'static str)
    requires
        d < 10,
    ensures
        r@ == seq![digit_char(d as nat)],
{
    proof {
        reveal_strlit("0");
        reveal_strlit("1");
        reveal_strlit("2");
        reveal_strlit("3");
        reveal_strlit("4");
        reveal_strlit("5");
        reveal_strlit("6");
        reveal_strlit("7");
        reveal_strlit("8");
        reveal_strlit("9");
    }
    let r = match d {
        0 => "0",
        1 => "1",
        2 => "2",
        3 => "3",
        4 => "4",
        5 => "5",
        6 => "6",
        7 => "7",
        8 => "8",
        _ => "9",
    };
    assert(r@ =~= seq![digit_char(d as nat)]);
    r
}

/// Appends the decimal representation of `n` to `s`.
pub fn push_decimal(s: &mut String, n: u128)
    ensures
        final(s)@ == old(s)@ + decimal(n as nat),
    decreases n,
{
    if n >= 10 {
        push_decimal(s, n / 10);
    }
    s.append(digit_str(n % 10));
    proof {
        if n >= 10 {
            assert(decimal(n as nat) == decimal((n / 10) as nat).push(digit_char((n % 10) as nat)));
        }
    }
    assert(s@ =~= old(s)@ + decimal(n as nat));
}

/// The decimal representation of `n`.
pub fn decimal_text(n: u128) -> (r: String)
    ensures
        r@ == decimal(n as nat),
{
    let mut s = String::new();
    push_decimal(&mut s, n);
    assert(s@ =~= decimal(n as nat));
    s
}

/// The two-digit decimal representation of `n` (`n < 100`).
pub open spec fn two_digits(n: nat) -> Seq<char> {
    seq![digit_char(n / 10), digit_char(n % 10)]
}

/// Appends the two-digit decimal representation of `n` to `s`.
pub fn push_two_digits(s: &mut String, n: u128)
    requires
        n < 100,
    ensures
        final(s)@ == old(s)@ + two_digits(n as nat),
{
    s.append(digit_str(n / 10));
    s.append(digit_str(n % 10));
    assert(s@ =~= old(s)@ + two_digits(n as nat));
}

/// The characters of `s`.
pub fn chars_of(s: &str) -> (r: Vec<char>)
    ensures
        r@ == s@,
{
    let n = s.unicode_len();
    let mut r: Vec<char> = Vec::new();
    let mut i: usize = 0;
    while i < n
        invariant
            n == s@.len(),
            i <= n,
            r@ == s@.take(i as int),
        decreases n - i,
    {
        r.push(s.get_char(i));
        i += 1;
        assert(r@ =~= s@.take(i as int));
    }
    assert(s@.take(n as int) =~= s@);
    r
}

/// Whether `c` is white space as Unicode's White_Space property, which
/// `char::is_whitespace` follows, defines it.
pub open spec fn is_white_space(c: char) -> bool {
    let n = c as u32;
    (0x9 <= n <= 0xd) || n == 0x20 || n == 0x85 || n == 0xa0 || n == 0x1680 || (0x2000 <= n
        <= 0x200a) || n == 0x2028 || n == 0x2029 || n == 0x202f || n == 0x205f || n == 0x3000
}

fn white_space(c: char) -> (r: bool)
    ensures
        r == is_white_space(c),
{
    let n = c as u32;
    (0x9 <= n && n <= 0xd) || n == 0x20 || n == 0x85 || n == 0xa0 || n == 0x1680 || (0x2000 <= n
        && n <= 0x200a) || n == 0x2028 || n == 0x2029 || n == 0x202f || n == 0x205f || n == 0x3000
}

/// `s` without its leading white space.
pub open spec fn trim_start(s: Seq<char>) -> Seq<char>
    decreases s.len(),
{
    if s.len() > 0 && is_white_space(s[0]) {
        trim_start(s.drop_first())
    } else {
        s
    }
}

/// `s` without its trailing white space.
pub open spec fn trim_end(s: Seq<char>) -> Seq<char>
    decreases s.len(),
{
    if s.len() > 0 && is_white_space(s.last()) {
        trim_end(s.drop_last())
    } else {
        s
    }
}

/// `s` without leading and trailing white space, as `str::trim` gives it.
pub open spec fn trim(s: Seq<char>) -> Seq<char> {
    trim_end(trim_start(s))
}

/// `s` without leading and trailing white space.
pub fn trim_text(s: &str) -> (r: String)
    ensures
        r@ == trim(s@),
{
    let cs = chars_of(s);
    let n = cs.len();
    let mut a: usize = 0;
    assert(s@.subrange(0, n as int) =~= s@);
    while a < n && white_space(cs[a])
        invariant
            cs@ == s@,
            n == cs.len(),
            a <= n,
            trim_start(s@) == trim_start(s@.subrange(a as int, n as int)),
        decreases n - a,
    {
        assert(s@.subrange(a as int, n as int).drop_first() =~= s@.subrange(a + 1, n as int));
        a += 1;
    }
    assert(trim_start(s@) == s@.subrange(a as int, n as int));
    let mut b: usize = n;
    while b > a && white_space(cs[b - 1])
        invariant
            cs@ == s@,
            n == cs.len(),
            a <= b <= n,
            trim(s@) == trim_end(s@.subrange(a as int, b as int)),
        decreases b - a,
    {
        assert(s@.subrange(a as int, b as int).drop_last() =~= s@.subrange(a as int, b - 1));
        b -= 1;
    }
    assert(trim(s@) == s@.subrange(a as int, b as int));
    String::from_str(s.substring_char(a, b))
}

/// The pieces of `s` between the occurrences of `sep`, as `str::split`
/// gives them: one more piece than there are separators.
pub open spec fn split_on(s: Seq<char>, sep: char) -> Seq<Seq<char>>
    decreases s.len(),
{
    if s.len() == 0 {
        seq![Seq::empty()]
    } else {
        let rest = split_on(s.drop_last(), sep);
        if s.last() == sep {
            rest.push(Seq::empty())
        } else {
            rest.update(rest.len() - 1, rest.last().push(s.last()))
        }
    }
}

proof fn lemma_split_nonempty(s: Seq<char>, sep: char)
    ensures
        split_on(s, sep).len() >= 1,
    decreases s.len(),
{
    if s.len() > 0 {
        lemma_split_nonempty(s.drop_last(), sep);
    }
}

/// The pieces of `s` between the occurrences of `sep`.
pub fn split_text(s: &str, sep: char) -> (r: Vec<String>)
    ensures
        r.deep_view() == split_on(s@, sep),
{
    let cs = chars_of(s);
    let n = cs.len();
    let mut pieces: Vec<String> = Vec::new();
    let mut start: usize = 0;
    let mut i: usize = 0;
    assert(s@.take(0) =~= Seq::<char>::empty());
    assert(s@.subrange(0, 0) =~= Seq::<char>::empty());
    assert(pieces.deep_view() =~= Seq::<Seq<char>>::empty());
    assert(split_on(Seq::<char>::empty(), sep) == seq![Seq::<char>::empty()]);
    assert(pieces.deep_view().push(s@.subrange(0, 0)) =~= seq![Seq::<char>::empty()]);
    while i < n
        invariant
            cs@ == s@,
            n == cs.len(),
            start <= i <= n,
            split_on(s@.take(i as int), sep) == pieces.deep_view().push(
                s@.subrange(start as int, i as int),
            ),
        decreases n - i,
    {
        proof {
            assert(s@.take(i + 1).drop_last() =~= s@.take(i as int));
            assert(s@.take(i + 1).last() == s@[i as int]);
            lemma_split_nonempty(s@.take(i as int), sep);
        }
        if cs[i] == sep {
            let ghost before = pieces.deep_view();
            pieces.push(String::from_str(s.substring_char(start, i)));
            assert(pieces.deep_view() =~= before.push(s@.subrange(start as int, i as int)));
            start = i + 1;
            assert(s@.subrange(start as int, i + 1) =~= Seq::<char>::empty());
            assert(split_on(s@.take(i + 1), sep) =~= pieces.deep_view().push(
                s@.subrange(start as int, i + 1),
            ));
        } else {
            assert(s@.subrange(start as int, i + 1) =~= s@.subrange(start as int, i as int).push(
                s@[i as int],
            ));
            assert(split_on(s@.take(i + 1), sep) =~= pieces.deep_view().push(
                s@.subrange(start as int, i + 1),
            ));
        }
        i += 1;
    }
    let ghost before = pieces.deep_view();
    pieces.push(String::from_str(s.substring_char(start, n)));
    assert(pieces.deep_view() =~= before.push(s@.subrange(start as int, n as int)));
    assert(s@.take(n as int) =~= s@);
    pieces
}

/// Whether `needle` occurs in `hay` as a run of consecutive characters, as
/// `str::contains` with a string pattern tests it.
pub open spec fn text_contains(hay: Seq<char>, needle: Seq<char>) -> bool {
    exists|i: int|
        0 <= i <= hay.len() - needle.len() && #[trigger] hay.subrange(i, i + needle.len())
            == needle
}

fn occurs_at(hay: &Vec<char>, needle: &Vec<char>, i: usize) -> (r: bool)
    requires
        i + needle.len() <= hay.len(),
    ensures
        r == (hay@.subrange(i as int, i + needle.len()) == needle@),
{
    let mut k: usize = 0;
    while k < needle.len()
        invariant
            i + needle.len() <= hay.len(),
            k <= needle.len(),
            forall|l: int| 0 <= l < k ==> hay@[i + l] == needle@[l],
        decreases needle.len() - k,
    {
        if hay[i + k] != needle[k] {
            assert(hay@.subrange(i as int, i + needle.len())[k as int] != needle@[k as int]);
            return false;
        }
        k += 1;
    }
    assert(hay@.subrange(i as int, i + needle.len()) =~= needle@);
    true
}

/// Whether `needle` occurs in `hay`.
pub fn contains_text(hay: &str, needle: &str) -> (r: bool)
    ensures
        r == text_contains(hay@, needle@),
{
    let h = chars_of(hay);
    let n = chars_of(needle);
    if n.len() > h.len() {
        return false;
    }
    let last = h.len() - n.len();
    let mut i: usize = 0;
    while i < last
        invariant
            h@ == hay@,
            n@ == needle@,
            last == h.len() - n.len(),
            i <= last,
            forall|j: int| 0 <= j < i ==> #[trigger] hay@.subrange(j, j + needle@.len()) != needle@,
        decreases last + 1 - i,
    {
        if occurs_at(&h, &n, i) {
            return true;
        }
        i += 1;
    }
    occurs_at(&h, &n, last)
}

/// Whether `name` from position `j` on matches `pattern` from position `i`
/// on, where `*` in the pattern stands for any run of characters (none
/// included) and every other character stands for itself.
pub open spec fn wildcard_match_from(pattern: Seq<char>, name: Seq<char>, i: int, j: int) -> bool
    decreases pattern.len() - i, name.len() - j,
{
    if i >= pattern.len() {
        j >= name.len()
    } else if pattern[i] == '*' {
        wildcard_match_from(pattern, name, i + 1, j) || (j < name.len() && wildcard_match_from(
            pattern,
            name,
            i,
            j + 1,
        ))
    } else {
        j < name.len() && name[j] == pattern[i] && wildcard_match_from(pattern, name, i + 1, j + 1)
    }
}

/// Whether `name` matches `pattern`, where `*` stands for any run of
/// characters (none included) and every other character for itself; a
/// pattern without `*` matches only the name equal to it.
pub open spec fn wildcard_match(pattern: Seq<char>, name: Seq<char>) -> bool {
    wildcard_match_from(pattern, name, 0, 0)
}

proof fn lemma_plain_pattern_from(pattern: Seq<char>, name: Seq<char>, i: int, j: int)
    requires
        0 <= i <= pattern.len(),
        0 <= j <= name.len(),
        forall|k: int| 0 <= k < pattern.len() ==> pattern[k] != '*',
    ensures
        wildcard_match_from(pattern, name, i, j) == (pattern.subrange(i, pattern.len() as int)
            == name.subrange(j, name.len() as int)),
    decreases pattern.len() - i,
{
    let ps = pattern.subrange(i, pattern.len() as int);
    let ns = name.subrange(j, name.len() as int);
    if i < pattern.len() {
        if j < name.len() {
            lemma_plain_pattern_from(pattern, name, i + 1, j + 1);
            let ps1 = pattern.subrange(i + 1, pattern.len() as int);
            let ns1 = name.subrange(j + 1, name.len() as int);
            assert(ps.drop_first() =~= ps1);
            assert(ns.drop_first() =~= ns1);
            if ps == ns {
                assert(ps[0] == ns[0]);
            }
            if pattern[i] == name[j] && ps1 == ns1 {
                assert forall|k: int| 0 <= k < ps.len() implies ps[k] == ns[k] by {
                    if k > 0 {
                        assert(ps[k] == ps1[k - 1]);
                        assert(ns[k] == ns1[k - 1]);
                    }
                }
                assert(ps =~= ns);
            }
        } else {
            assert(ns.len() == 0);
        }
    } else {
        assert(ps.len() == 0);
        if j < name.len() {
            assert(ns.len() > 0);
        } else {
            assert(ps =~= ns);
        }
    }
}

/// A pattern without `*` matches exactly the name equal to it.
pub proof fn lemma_plain_pattern(pattern: Seq<char>, name: Seq<char>)
    requires
        !pattern.contains('*'),
    ensures
        wildcard_match(pattern, name) == (pattern == name),
{
    assert forall|k: int| 0 <= k < pattern.len() implies pattern[k] != '*' by {
        if pattern[k] == '*' {
            assert(pattern.contains('*'));
        }
    }
    lemma_plain_pattern_from(pattern, name, 0, 0);
    assert(pattern.subrange(0, pattern.len() as int) =~= pattern);
    assert(name.subrange(0, name.len() as int) =~= name);
}

/// Whether `name` matches the wildcard pattern `pattern`.
pub fn wildcard_matches(pattern: &str, name: &str) -> (r: bool)
    ensures
        r == wildcard_match(pattern@, name@),
{
    let p = chars_of(pattern);
    let s = chars_of(name);
    let plen = p.len();
    let slen = s.len();
    // Row `i` holds, for each `j < slen`, whether the name from `j` matches the
    // pattern from `i`; `end` is the same for `j == slen`.
    let mut next: Vec<bool> = Vec::new();
    let mut j: usize = 0;
    while j < slen
        invariant
            j <= slen,
            next.len() == j,
            p@ == pattern@,
            s@ == name@,
            plen == p.len(),
            slen == s.len(),
            forall|k: int| 0 <= k < j ==> next@[k] == wildcard_match_from(p@, s@, plen as int, k),
        decreases slen - j,
    {
        next.push(false);
        j += 1;
    }
    let mut next_end = true;
    let mut i: usize = plen;
    while i > 0
        invariant
            i <= plen,
            p@ == pattern@,
            s@ == name@,
            plen == p.len(),
            slen == s.len(),
            next.len() == slen,
            forall|k: int| 0 <= k < slen ==> next@[k] == wildcard_match_from(p@, s@, i as int, k),
            next_end == wildcard_match_from(p@, s@, i as int, slen as int),
        decreases i,
    {
        i -= 1;
        let star = p[i] == '*';
        let cur_end = star && next_end;
        let mut cur: Vec<bool> = Vec::new();
        let mut k: usize = 0;
        while k < slen
            invariant
                k <= slen,
                cur.len() == k,
            decreases slen - k,
        {
            cur.push(false);
            k += 1;
        }
        let mut j: usize = slen;
        while j > 0
            invariant
                j <= slen,
                i < plen,
                p@ == pattern@,
                s@ == name@,
                plen == p.len(),
                slen == s.len(),
                star == (p@[i as int] == '*'),
                next.len() == slen,
                cur.len() == slen,
                forall|k: int|
                    0 <= k < slen ==> next@[k] == wildcard_match_from(p@, s@, i + 1, k),
                next_end == wildcard_match_from(p@, s@, i + 1, slen as int),
                cur_end == wildcard_match_from(p@, s@, i as int, slen as int),
                forall|k: int|
                    j <= k < slen ==> cur@[k] == wildcard_match_from(p@, s@, i as int, k),
            decreases j,
        {
            j -= 1;
            let after_next = if j + 1 < slen {
                next[j + 1]
            } else {
                next_end
            };
            let after_cur = if j + 1 < slen {
                cur[j + 1]
            } else {
                cur_end
            };
            let v = if star {
                next[j] || after_cur
            } else {
                s[j] == p[i] && after_next
            };
            cur.set(j, v);
        }
        next = cur;
        next_end = cur_end;
    }
    if slen > 0 {
        next[0]
    } else {
        next_end
    }
}

/// The lower-case form of a text, as `str::to_lowercase` gives it.
pub uninterp spec fn lowercase(s: Seq<char>) -> Seq<char>;

/// Whether every character of `s` is in the ASCII range.
pub open spec fn is_ascii_text(s: Seq<char>) -> bool {
    forall|k: int| 0 <= k < s.len() ==> (#[trigger] s[k] as u32) < 128
}

/// A character lower-cased in the ASCII range: `A` to `Z` become `a` to `z`,
/// every other character stays.
pub open spec fn ascii_lower_char(c: char) -> char {
    if 'A' <= c && c <= 'Z' {
        ((c as u32) + 32) as char
    } else {
        c
    }
}

/// A text with each character lower-cased in the ASCII range.
pub open spec fn ascii_lower(s: Seq<char>) -> Seq<char> {
    s.map_values(|c: char| ascii_lower_char(c))
}

/// The lower-case form of a text: for ASCII text, `A` to `Z` become `a` to
/// `z`; other text as `str::to_lowercase` gives it.
pub open spec fn lower_text(s: Seq<char>) -> Seq<char> {
    if is_ascii_text(s) {
        ascii_lower(s)
    } else {
        lowercase(s)
    }
}

/// Lower-cases a text with `str::to_lowercase`. Its contract names the
/// result `lowercase`, and states that ASCII text has `A` to `Z` turned into
/// `a` to `z` and every other character kept; of other text it states nothing
/// more.
#[verifier::external_body]
pub(crate) fn to_lowercase(s: &str) -> (r: String)
    ensures
        r@ == lowercase(s@),
        is_ascii_text(s@) ==> r@ == ascii_lower(s@),
{
    s.to_lowercase()
}

} // verus!
