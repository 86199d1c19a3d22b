//! Character-level helpers shared by the page grammar: whitespace trimming,
//! line splitting, searching, and conversions between `String` and `Vec<char>`.

use vstd::prelude::*;

verus! {

/// The whitespace characters recognized by the page grammar (the ASCII ones).
pub open spec fn is_space_char(c: char) -> bool {
    c == ' ' || c == '\t' || c == '\n' || c == '\r' || c == '\x0b' || c == '\x0c'
}

/// Exec mirror of `is_space_char`.
pub fn space_char(c: char) -> (r: bool)
    ensures
        r == is_space_char(c),
{
    c == ' ' || c == '\t' || c == '\n' || c == '\r' || c == '\x0b' || c == '\x0c'
}

/// The first position at or after `i` holding `c`, or the length if none does.
pub open spec fn find_from(s: Seq<char>, c: char, i: nat) -> nat
    decreases s.len() - i,
{
    if i >= s.len() {
        s.len()
    } else if s[i as int] == c {
        i
    } else {
        find_from(s, c, (i + 1) as nat)
    }
}

pub proof fn lemma_find_from(s: Seq<char>, c: char, i: nat)
    requires
        i <= s.len(),
    ensures
        i <= find_from(s, c, i) <= s.len(),
        find_from(s, c, i) < s.len() ==> s[find_from(s, c, i) as int] == c,
        forall|j: int| i <= j < find_from(s, c, i) ==> s[j] != c,
    decreases s.len() - i,
{
    if i < s.len() && s[i as int] != c {
        lemma_find_from(s, c, (i + 1) as nat);
    }
}

/// The characterization above pins `find_from` down completely.
pub proof fn lemma_find_from_unique(s: Seq<char>, c: char, i: nat, r: nat)
    requires
        i <= r <= s.len(),
        r < s.len() ==> s[r as int] == c,
        forall|j: int| i <= j < r ==> s[j] != c,
    ensures
        find_from(s, c, i) == r,
    decreases s.len() - i,
{
    if i < s.len() && s[i as int] != c {
        lemma_find_from_unique(s, c, (i + 1) as nat, r);
    }
}

/// What remains of `s` once its leading whitespace is dropped.
pub open spec fn trim_start_spec(s: Seq<char>) -> Seq<char>
    decreases s.len(),
{
    if s.len() == 0 || !is_space_char(s[0]) {
        s
    } else {
        trim_start_spec(s.drop_first())
    }
}

/// What remains of `s` once its trailing whitespace is dropped.
pub open spec fn trim_end_spec(s: Seq<char>) -> Seq<char>
    decreases s.len(),
{
    if s.len() == 0 || !is_space_char(s[s.len() - 1]) {
        s
    } else {
        trim_end_spec(s.drop_last())
    }
}

/// `s` with both leading and trailing whitespace dropped.
pub open spec fn trim_spec(s: Seq<char>) -> Seq<char> {
    trim_start_spec(trim_end_spec(s))
}

pub proof fn lemma_trim_start_range(s: Seq<char>, a: nat)
    requires
        a <= s.len(),
        forall|j: int| 0 <= j < a ==> is_space_char(s[j]),
        a < s.len() ==> !is_space_char(s[a as int]),
    ensures
        trim_start_spec(s) =~= s.subrange(a as int, s.len() as int),
    decreases s.len(),
{
    if s.len() == 0 || !is_space_char(s[0]) {
        assert(a == 0);
    } else {
        lemma_trim_start_range(s.drop_first(), (a - 1) as nat);
    }
}

pub proof fn lemma_trim_end_range(s: Seq<char>, b: nat)
    requires
        b <= s.len(),
        forall|j: int| b <= j < s.len() ==> is_space_char(s[j]),
        b > 0 ==> !is_space_char(s[b - 1]),
    ensures
        trim_end_spec(s) =~= s.subrange(0, b as int),
    decreases s.len(),
{
    if s.len() == 0 || !is_space_char(s[s.len() - 1]) {
        assert(b == s.len());
    } else {
        lemma_trim_end_range(s.drop_last(), b);
    }
}

/// A string whose ends are not whitespace trims to itself.
pub proof fn lemma_trim_noop(s: Seq<char>)
    requires
        s.len() > 0 ==> !is_space_char(s[0]),
        s.len() > 0 ==> !is_space_char(s[s.len() - 1]),
    ensures
        trim_spec(s) == s,
{
    lemma_trim_end_range(s, s.len());
    assert(trim_end_spec(s) =~= s);
    if s.len() > 0 {
        lemma_trim_start_range(s, 0);
    }
    assert(trim_start_spec(s) =~= s);
}

/// A line with one trailing carriage return stripped, the way `str::lines`
/// hands lines out.
pub open spec fn strip_cr(l: Seq<char>) -> Seq<char> {
    if l.len() > 0 && l[l.len() - 1] == '\r' {
        l.drop_last()
    } else {
        l
    }
}

/// The lines of `s`: split on `'\n'`, one trailing `'\r'` stripped from each
/// piece, and no empty final line when `s` ends with a newline.
pub open spec fn lines_of(s: Seq<char>) -> Seq<Seq<char>>
    decreases s.len(),
{
    if s.len() == 0 {
        Seq::empty()
    } else {
        let n = find_from(s, '\n', 0);
        if n >= s.len() {
            seq![strip_cr(s)]
        } else {
            seq![strip_cr(s.subrange(0, n as int))] + lines_of(
                s.subrange(n as int + 1, s.len() as int),
            )
        }
    }
}

/// Peeling one newline-terminated line off the front of a string.
pub proof fn lemma_lines_step(a: Seq<char>, b: Seq<char>)
    requires
        forall|j: int| 0 <= j < a.len() ==> a[j] != '\n',
    ensures
        lines_of(a + seq!['\n'] + b) =~= seq![strip_cr(a)] + lines_of(b),
{
    let s = a + seq!['\n'] + b;
    assert(s.len() > 0);
    lemma_find_from_unique(s, '\n', 0, a.len());
    let n = find_from(s, '\n', 0);
    assert(n == a.len());
    assert(n < s.len());
    assert(s.subrange(0, n as int) =~= a);
    assert(s.subrange(n as int + 1, s.len() as int) =~= b);
}

/// A string with no newline at all is a single line.
pub proof fn lemma_lines_single(a: Seq<char>)
    requires
        a.len() > 0,
        forall|j: int| 0 <= j < a.len() ==> a[j] != '\n',
    ensures
        lines_of(a) =~= seq![strip_cr(a)],
{
    lemma_find_from_unique(a, '\n', 0, a.len());
}

/// The lines of `s`, each with a newline restored.
pub open spec fn rebuild_lines(ls: Seq<Seq<char>>) -> Seq<char>
    decreases ls.len(),
{
    if ls.len() == 0 {
        Seq::empty()
    } else {
        ls[0] + seq!['\n'] + rebuild_lines(ls.drop_first())
    }
}

/// Appending one newline-terminated line to a block of full lines appends
/// one line.
pub proof fn lemma_lines_append_line(o: Seq<char>, line: Seq<char>)
    requires
        o.len() == 0 || o[o.len() - 1] == '\n',
        forall|j: int| 0 <= j < line.len() ==> line[j] != '\n',
    ensures
        lines_of(o + line + seq!['\n']) =~= lines_of(o) + seq![strip_cr(line)],
    decreases o.len(),
{
    if o.len() == 0 {
        assert(o + line =~= line);
        lemma_lines_step(line, Seq::empty());
        assert(o + line + seq!['\n'] =~= line + seq!['\n'] + Seq::<char>::empty());
        assert(lines_of(Seq::<char>::empty()) =~= Seq::<Seq<char>>::empty());
    } else {
        lemma_find_from(o, '\n', 0);
        let n = find_from(o, '\n', 0);
        assert(n < o.len()) by {
            if n == o.len() {
                assert(o[o.len() - 1] == '\n');
            }
        }
        let a = o.subrange(0, n as int);
        let b = o.subrange(n as int + 1, o.len() as int);
        let s = o + line + seq!['\n'];
        assert(s =~= a + seq!['\n'] + (b + line + seq!['\n']));
        lemma_lines_step(a, b + line + seq!['\n']);
        assert(b.len() == 0 || b[b.len() - 1] == '\n') by {
            if b.len() > 0 {
                assert(b[b.len() - 1] == o[o.len() - 1]);
            }
        }
        lemma_lines_append_line(b, line);
        assert(o =~= a + seq!['\n'] + b);
        lemma_lines_step(a, b);
    }
}

/// Stripping a carriage return does not change whether a line is recognized:
/// the first colon and everything before it stay put.
pub proof fn lemma_strip_cr_colon(l: Seq<char>)
    ensures
        strip_cr(l).len() <= l.len(),
        find_from(strip_cr(l), ':', 0) < strip_cr(l).len() <==> find_from(l, ':', 0) < l.len(),
        find_from(strip_cr(l), ':', 0) < strip_cr(l).len() ==> find_from(strip_cr(l), ':', 0)
            == find_from(l, ':', 0) && strip_cr(l).subrange(0, find_from(strip_cr(l), ':', 0) as int)
            =~= l.subrange(0, find_from(l, ':', 0) as int),
{
    lemma_find_from(l, ':', 0);
    lemma_find_from(strip_cr(l), ':', 0);
    let n = find_from(l, ':', 0);
    let m = strip_cr(l);
    if l.len() > 0 && l[l.len() - 1] == '\r' {
        if n < l.len() {
            assert(n != l.len() - 1);
            lemma_find_from_unique(m, ':', 0, n);
        } else {
            lemma_find_from_unique(m, ':', 0, m.len());
        }
    }
}

/// No line of `s` ends with a carriage return.
pub open spec fn no_cr_before_newline(s: Seq<char>) -> bool {
    forall|i: int| 0 < i < s.len() && #[trigger] s[i] == '\n' ==> s[i - 1] != '\r'
}

/// Splitting a newline-terminated, carriage-return-free string into lines and
/// terminating each line again gives the string back.
pub proof fn lemma_rebuild_lines(s: Seq<char>)
    requires
        s.len() == 0 || s[s.len() - 1] == '\n',
        no_cr_before_newline(s),
    ensures
        rebuild_lines(lines_of(s)) =~= s,
    decreases s.len(),
{
    if s.len() > 0 {
        lemma_find_from(s, '\n', 0);
        let n = find_from(s, '\n', 0);
        assert(n < s.len()) by {
            if n == s.len() {
                assert(s[s.len() - 1] == '\n');
            }
        }
        let a = s.subrange(0, n as int);
        let b = s.subrange(n as int + 1, s.len() as int);
        assert(strip_cr(a) == a) by {
            if a.len() > 0 && a[a.len() - 1] == '\r' {
                assert(s[n as int] == '\n');
                assert(s[n - 1] == '\r');
            }
        }
        if b.len() == 0 {
            assert(n == s.len() - 1);
            assert(b =~= Seq::<char>::empty());
            assert(lines_of(b) =~= Seq::<Seq<char>>::empty());
            assert(lines_of(s) =~= seq![a]);
            let ls1 = seq![a];
            assert(ls1.drop_first() =~= Seq::<Seq<char>>::empty());
            assert(rebuild_lines(Seq::<Seq<char>>::empty()) =~= Seq::<char>::empty());
            assert(rebuild_lines(ls1) =~= a + seq!['\n']);
            assert(a + seq!['\n'] =~= s);
        } else {
            assert(b[b.len() - 1] == '\n');
            assert(no_cr_before_newline(b)) by {
                assert forall|i: int| 0 < i < b.len() && #[trigger] b[i] == '\n' implies b[i
                    - 1] != '\r' by {
                    assert(s[n + 1 + i] == '\n');
                    assert(b[i - 1] == s[n + i]);
                }
            }
            lemma_rebuild_lines(b);
            let ls = lines_of(s);
            assert(ls =~= seq![a] + lines_of(b));
            assert(ls.drop_first() =~= lines_of(b));
            assert(rebuild_lines(ls) =~= a + seq!['\n'] + rebuild_lines(lines_of(b)));
            assert(a + seq!['\n'] + b =~= s);
        }
    }
}

/// Dropping a string's final newline leaves its lines unchanged, provided
/// the character before it starts no new line.
pub proof fn lemma_lines_drop_last_newline(o: Seq<char>)
    requires
        o.len() >= 2,
        o[o.len() - 1] == '\n',
        o[o.len() - 2] != '\n',
        o[o.len() - 2] != '\r',
    ensures
        lines_of(o.drop_last()) =~= lines_of(o),
    decreases o.len(),
{
    lemma_find_from(o, '\n', 0);
    let n = find_from(o, '\n', 0);
    assert(n < o.len());
    let od = o.drop_last();
    if n == o.len() - 1 {
        assert(forall|j: int| 0 <= j < od.len() ==> od[j] == o[j] && o[j] != '\n');
        lemma_lines_single(od);
        assert(od.len() > 0);
        assert(o.subrange(0, n as int) =~= od);
        assert(o.subrange(n as int + 1, o.len() as int) =~= Seq::<char>::empty());
        assert(lines_of(Seq::<char>::empty()) =~= Seq::<Seq<char>>::empty());
        assert(lines_of(o) =~= seq![strip_cr(od)]);
    } else {
        lemma_find_from_unique(od, '\n', 0, n);
        let a = o.subrange(0, n as int);
        let b = o.subrange(n as int + 1, o.len() as int);
        let bd = od.subrange(n as int + 1, od.len() as int);
        assert(od.subrange(0, n as int) =~= a);
        assert(bd =~= b.drop_last());
        assert(b.len() >= 2) by {
            if b.len() == 1 {
                assert(o[o.len() - 2] == '\n');
            }
        }
        assert(b[b.len() - 1] == '\n' && b[b.len() - 2] != '\n' && b[b.len() - 2] != '\r');
        lemma_lines_drop_last_newline(b);
    }
}

/// Concatenating delimiter-free text after a block ending in a newline
/// introduces no delimiter; the newline breaks any window over the seam.
pub proof fn lemma_no_close_concat_nl(o: Seq<char>, b: Seq<char>, sep: char)
    requires
        o.len() > 0,
        o[o.len() - 1] == sep,
        sep != '-' && sep != '>',
        forall|i: int|
            0 <= i && i + 2 < o.len() ==> !(o[i] == '-' && #[trigger] o[i + 1] == '-' && o[i + 2]
                == '>'),
        forall|i: int|
            0 <= i && i + 2 < b.len() ==> !(b[i] == '-' && #[trigger] b[i + 1] == '-' && b[i + 2]
                == '>'),
    ensures
        forall|i: int|
            0 <= i && i + 2 < (o + b).len() ==> !((o + b)[i] == '-' && #[trigger] (o + b)[i + 1]
                == '-' && (o + b)[i + 2] == '>'),
{
    let s = o + b;
    let n = o.len() as int;
    assert forall|i: int|
        0 <= i && i + 2 < s.len() implies !(s[i] == '-' && #[trigger] s[i + 1] == '-' && s[i + 2]
        == '>') by {
        if s[i] == '-' && s[i + 1] == '-' && s[i + 2] == '>' {
            if i + 2 < n {
                assert(s[i] == o[i] && s[i + 1] == o[i + 1] && s[i + 2] == o[i + 2]);
            } else if i >= n {
                assert(s[i] == b[i - n] && s[i + 1] == b[i - n + 1] && s[i + 2] == b[i - n + 2]);
            } else {
                assert(s[n - 1] == o[o.len() - 1]);
                assert(i <= n - 1 <= i + 2);
            }
        }
    }
}

pub proof fn lemma_trim_start_len(s: Seq<char>)
    ensures
        trim_start_spec(s).len() <= s.len(),
    decreases s.len(),
{
    if !(s.len() == 0 || !is_space_char(s[0])) {
        lemma_trim_start_len(s.drop_first());
    }
}

pub proof fn lemma_trim_end_len(s: Seq<char>)
    ensures
        trim_end_spec(s).len() <= s.len(),
    decreases s.len(),
{
    if !(s.len() == 0 || !is_space_char(s[s.len() - 1])) {
        lemma_trim_end_len(s.drop_last());
    }
}

/// A non-empty string that trims to itself has no whitespace at its ends.
pub proof fn lemma_trim_self_ends(s: Seq<char>)
    requires
        trim_spec(s) == s,
        s.len() > 0,
    ensures
        !is_space_char(s[0]),
        !is_space_char(s[s.len() - 1]),
{
    if is_space_char(s[s.len() - 1]) {
        lemma_trim_end_len(s.drop_last());
        lemma_trim_start_len(trim_end_spec(s.drop_last()));
        assert(trim_spec(s).len() < s.len());
    }
    assert(trim_end_spec(s) == s);
    if is_space_char(s[0]) {
        lemma_trim_start_len(s.drop_first());
        assert(trim_spec(s).len() < s.len());
    }
}

/// ASCII decimal digits.
pub open spec fn is_digit_char(c: char) -> bool {
    '0' <= c && c <= '9'
}

/// ASCII letters and digits.
pub open spec fn is_ascii_alnum(c: char) -> bool {
    ('a' <= c && c <= 'z') || ('A' <= c && c <= 'Z') || is_digit_char(c)
}

/// Exec mirror of `is_ascii_alnum`.
pub fn ascii_alnum(c: char) -> (r: bool)
    ensures
        r == is_ascii_alnum(c),
{
    ('a' <= c && c <= 'z') || ('A' <= c && c <= 'Z') || ('0' <= c && c <= '9')
}

/// ASCII upper-case letters folded to lower case; everything else unchanged.
/// Tag tokens only ever hold ASCII letters, digits, `-` and `_`, so this is
/// all the case folding the grammar needs.
pub open spec fn lower_char(c: char) -> char {
    if 'A' <= c && c <= 'Z' {
        (((c as u32) + 32) as char)
    } else {
        c
    }
}

pub open spec fn lower_seq(s: Seq<char>) -> Seq<char> {
    s.map_values(|c: char| lower_char(c))
}

/// Exec mirror of `lower_char`.
pub fn to_lower_char(c: char) -> (r: char)
    ensures
        r == lower_char(c),
{
    if 'A' <= c && c <= 'Z' {
        (((c as u32) + 32) as u8) as char
    } else {
        c
    }
}

/// Strict lexicographic order on character sequences, by code point; the
/// order `str`'s own comparison realizes.
pub open spec fn lex_lt(a: Seq<char>, b: Seq<char>) -> bool
    decreases a.len(),
{
    if b.len() == 0 {
        false
    } else if a.len() == 0 {
        true
    } else if (a[0] as u32) < (b[0] as u32) {
        true
    } else if a[0] == b[0] {
        lex_lt(a.drop_first(), b.drop_first())
    } else {
        false
    }
}

/// Two sequences are lexicographically ordered one way or the other, or equal.
pub proof fn lemma_lex_total(a: Seq<char>, b: Seq<char>)
    ensures
        lex_lt(a, b) || lex_lt(b, a) || a =~= b,
    decreases a.len(),
{
    if a.len() == 0 || b.len() == 0 {
    } else if (a[0] as u32) < (b[0] as u32) || (b[0] as u32) < (a[0] as u32) {
        assert(lex_lt(a, b) || lex_lt(b, a));
    } else {
        assert(a[0] == b[0]) by {
            vstd::utf8::char_u32_cast(a[0], a[0] as u32);
            vstd::utf8::char_u32_cast(b[0], b[0] as u32);
        }
        lemma_lex_total(a.drop_first(), b.drop_first());
        if a.drop_first() =~= b.drop_first() {
            assert(a.len() == b.len());
            assert forall|i: int| 0 <= i < a.len() implies a[i] == b[i] by {
                if i > 0 {
                    assert(a[i] == a.drop_first()[i - 1]);
                    assert(b[i] == b.drop_first()[i - 1]);
                }
            }
            assert(a =~= b);
        }
    }
}

pub proof fn lemma_lex_trans(a: Seq<char>, b: Seq<char>, c: Seq<char>)
    requires
        lex_lt(a, b),
        lex_lt(b, c),
    ensures
        lex_lt(a, c),
    decreases a.len(),
{
    if a.len() > 0 && b.len() > 0 && c.len() > 0 && a[0] == b[0] && b[0] == c[0] {
        lemma_lex_trans(a.drop_first(), b.drop_first(), c.drop_first());
    }
}

/// The decimal digit for a value below ten.
pub open spec fn digit_char(d: nat) -> char {
    if d == 0 { '0' }
    else if d == 1 { '1' }
    else if d == 2 { '2' }
    else if d == 3 { '3' }
    else if d == 4 { '4' }
    else if d == 5 { '5' }
    else if d == 6 { '6' }
    else if d == 7 { '7' }
    else if d == 8 { '8' }
    else { '9' }
}

/// The usual decimal rendering of `n`, most significant digit first.
pub open spec fn dec_str(n: nat) -> Seq<char>
    decreases n,
{
    if n < 10 {
        seq![digit_char(n)]
    } else {
        dec_str(n / 10).push(digit_char(n % 10))
    }
}

/// The value a digit sequence denotes.
pub open spec fn dec_val(s: Seq<char>) -> nat
    decreases s.len(),
{
    if s.len() == 0 {
        0
    } else {
        dec_val(s.drop_last()) * 10 + (if is_digit_char(s[s.len() - 1]) {
            (s[s.len() - 1] as u32 - '0' as u32) as nat
        } else {
            0
        })
    }
}

/// Rendering a number and reading the digits back returns the number, so the
/// rendering is injective.
pub proof fn lemma_dec_str_val(n: nat)
    ensures
        dec_val(dec_str(n)) == n,
        dec_str(n).len() > 0,
        forall|j: int| 0 <= j < dec_str(n).len() ==> is_digit_char(#[trigger] dec_str(n)[j]),
    decreases n,
{
    if n < 10 {
        let s = seq![digit_char(n)];
        assert(dec_str(n) =~= s);
        assert(s.drop_last() =~= Seq::<char>::empty());
        assert(dec_val(Seq::<char>::empty()) == 0);
        assert(is_digit_char(digit_char(n)));
        assert(digit_char(n) as u32 - '0' as u32 == n);
        assert(dec_val(s) == n);
    } else {
        lemma_dec_str_val(n / 10);
        let s = dec_str(n);
        assert(s =~= dec_str(n / 10).push(digit_char(n % 10)));
        assert(s.drop_last() =~= dec_str(n / 10));
        assert(s[s.len() - 1] == digit_char(n % 10));
        assert(dec_val(s) == (n / 10) * 10 + n % 10);
        assert((n / 10) * 10 + n % 10 == n) by (nonlinear_arith);
    }
}

/// Exec mirror of `digit_char`.
pub fn digit_char_of(d: u64) -> (c: char)
    requires
        d < 10,
    ensures
        c == digit_char(d as nat),
{
    if d == 0 { '0' }
    else if d == 1 { '1' }
    else if d == 2 { '2' }
    else if d == 3 { '3' }
    else if d == 4 { '4' }
    else if d == 5 { '5' }
    else if d == 6 { '6' }
    else if d == 7 { '7' }
    else if d == 8 { '8' }
    else { '9' }
}

/// Relies on `String::push`: appends exactly the one character.
#[verifier::external_body]
pub fn push_char(s: &mut String, c: char)
    ensures
        final(s)@ == old(s)@.push(c),
{
    s.push(c);
}

/// The characters of `s`, one vector element per character.
pub fn chars_of(s: &str) -> (v: Vec<char>)
    ensures
        v@ == s@,
{
    let n = s.unicode_len();
    let mut v: Vec<char> = Vec::new();
    let mut i: usize = 0;
    while i < n
        invariant
            i <= n,
            n == s@.len(),
            v@ =~= s@.subrange(0, i as int),
        decreases n - i,
    {
        v.push(s.get_char(i));
        i += 1;
        assert(v@ =~= s@.subrange(0, i as int));
    }
    assert(v@ =~= s@);
    v
}

/// The characters `v[lo..hi]` as a `String`.
pub fn string_from_range(v: &Vec<char>, lo: usize, hi: usize) -> (r: String)
    requires
        lo <= hi <= v@.len(),
    ensures
        r@ == v@.subrange(lo as int, hi as int),
{
    let mut r = String::new();
    let mut i: usize = lo;
    while i < hi
        invariant
            lo <= i <= hi <= v@.len(),
            r@ =~= v@.subrange(lo as int, i as int),
        decreases hi - i,
    {
        push_char(&mut r, v[i]);
        i += 1;
        assert(r@ =~= v@.subrange(lo as int, i as int));
    }
    assert(r@ =~= v@.subrange(lo as int, hi as int));
    r
}

/// Whether `v[lo..hi]` spells exactly the characters of `w`.
pub fn range_eq_str(v: &Vec<char>, lo: usize, hi: usize, w: &str) -> (r: bool)
    requires
        lo <= hi <= v@.len(),
    ensures
        r == (v@.subrange(lo as int, hi as int) =~= w@),
{
    let n = w.unicode_len();
    if n != hi - lo {
        return false;
    }
    let mut i: usize = 0;
    while i < n
        invariant
            i <= n,
            n == w@.len(),
            n == hi - lo,
            lo <= hi <= v@.len(),
            forall|j: int| 0 <= j < i ==> v@[lo + j] == w@[j],
        decreases n - i,
    {
        if v[lo + i] != w.get_char(i) {
            return false;
        }
        i += 1;
    }
    true
}

/// The first position in `[from, hi)` where `v` holds `c`, or `hi` if none.
pub fn find_char_range(v: &Vec<char>, from: usize, hi: usize, c: char) -> (r: usize)
    requires
        from <= hi <= v@.len(),
    ensures
        r == find_from(v@.subrange(from as int, hi as int), c, 0) + from,
        from <= r <= hi,
        r < hi ==> v@[r as int] == c,
        forall|j: int| from <= j < r ==> v@[j] != c,
{
    let ghost s = v@.subrange(from as int, hi as int);
    let mut i: usize = from;
    while i < hi
        invariant
            from <= i <= hi <= v@.len(),
            s == v@.subrange(from as int, hi as int),
            forall|j: int| from <= j < i ==> v@[j] != c,
        decreases hi - i,
    {
        if v[i] == c {
            proof {
                lemma_find_from_unique(s, c, 0, (i - from) as nat);
            }
            return i;
        }
        i += 1;
    }
    proof {
        lemma_find_from_unique(s, c, 0, (hi - from) as nat);
    }
    hi
}

/// The bounds of `v[lo..hi]` with surrounding whitespace dropped.
pub fn trim_range(v: &Vec<char>, lo: usize, hi: usize) -> (r: (usize, usize))
    requires
        lo <= hi <= v@.len(),
    ensures
        lo <= r.0 <= r.1 <= hi,
        trim_spec(v@.subrange(lo as int, hi as int)) =~= v@.subrange(r.0 as int, r.1 as int),
        r.0 < r.1 ==> !is_space_char(v@[r.0 as int]) && !is_space_char(v@[r.1 - 1]),
{
    let ghost s = v@.subrange(lo as int, hi as int);
    let mut b: usize = hi;
    while b > lo && space_char(v[b - 1])
        invariant
            lo <= b <= hi <= v@.len(),
            forall|j: int| b <= j < hi ==> is_space_char(#[trigger] v@[j]),
        decreases b,
    {
        b -= 1;
    }
    let mut a: usize = lo;
    while a < b && space_char(v[a])
        invariant
            lo <= a <= b <= hi <= v@.len(),
            forall|j: int| lo <= j < a ==> is_space_char(#[trigger] v@[j]),
        decreases b - a,
    {
        a += 1;
    }
    proof {
        lemma_trim_end_range(s, (b - lo) as nat);
        let t = s.subrange(0, b - lo);
        assert(t =~= v@.subrange(lo as int, b as int));
        lemma_trim_start_range(t, (a - lo) as nat);
        assert(trim_spec(s) =~= v@.subrange(a as int, b as int));
    }
    (a, b)
}

/// The decimal rendering of `n`.
pub fn usize_to_string(n: usize) -> (r: String)
    ensures
        r@ == dec_str(n as nat),
{
    if n == 0 {
        let mut r = String::new();
        push_char(&mut r, '0');
        proof {
            assert(dec_str(0) =~= seq!['0']);
            assert(r@ =~= dec_str(0));
        }
        return r;
    }
    let mut digits: Vec<char> = Vec::new();
    let mut m: usize = n;
    while m > 0
        invariant
            m > 0 ==> dec_str(n as nat) =~= dec_str(m as nat) + digits@.reverse(),
            m == 0 ==> dec_str(n as nat) =~= digits@.reverse(),
            m <= n,
        decreases m,
    {
        let d = digit_char_of((m % 10) as u64);
        digits.push(d);
        proof {
            assert(digits@.reverse() =~= seq![d] + digits@.drop_last().reverse());
            if m >= 10 {
                assert(dec_str(m as nat) =~= dec_str((m as nat) / 10).push(digit_char(
                    (m as nat) % 10,
                )));
                assert(dec_str((m as nat) / 10) + seq![d] + digits@.drop_last().reverse()
                    =~= dec_str((m as nat) / 10) + digits@.reverse());
            } else {
                assert(dec_str(m as nat) =~= seq![d]);
            }
        }
        m = m / 10;
    }
    let mut r = String::new();
    let mut i: usize = digits.len();
    while i > 0
        invariant
            i <= digits@.len(),
            r@.len() == digits@.len() - i,
            forall|j: int| 0 <= j < r@.len() ==> r@[j] == digits@[digits@.len() - 1 - j],
        decreases i,
    {
        push_char(&mut r, digits[i - 1]);
        i -= 1;
    }
    proof {
        assert(r@ =~= digits@.reverse());
    }
    r
}

} // verus!
