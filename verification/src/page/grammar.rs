//! The page source grammar, as mathematics.
//!
//! A page file is an optional comment-style header block followed by the
//! body.  The header holds `key: value` lines; `#word` tokens in the body are
//! tags; the first heading (or sentence) of the body is its title.  The
//! functions here say what each piece of the grammar denotes; `page` proves
//! its executable parser and printer against them.

use vstd::prelude::*;

use crate::text::find_from;
use crate::text::is_ascii_alnum;
use crate::text::is_space_char;
use crate::text::lines_of;
use crate::text::lower_seq;
use crate::text::trim_spec;

verus! {

/// The first position at or after `i` whose character fails `p`, or the
/// length if none does.
pub open spec fn scan_while(s: Seq<char>, i: nat, p: spec_fn(char) -> bool) -> nat
    decreases s.len() - i,
{
    if i >= s.len() {
        s.len()
    } else if !p(s[i as int]) {
        i
    } else {
        scan_while(s, (i + 1) as nat, p)
    }
}

pub proof fn lemma_scan_while(s: Seq<char>, i: nat, p: spec_fn(char) -> bool)
    requires
        i <= s.len(),
    ensures
        i <= scan_while(s, i, p) <= s.len(),
        scan_while(s, i, p) < s.len() ==> !p(s[scan_while(s, i, p) as int]),
        forall|j: int| i <= j < scan_while(s, i, p) ==> p(s[j]),
    decreases s.len() - i,
{
    if i < s.len() && p(s[i as int]) {
        lemma_scan_while(s, (i + 1) as nat, p);
    }
}

pub proof fn lemma_scan_while_unique(s: Seq<char>, i: nat, p: spec_fn(char) -> bool, r: nat)
    requires
        i <= r <= s.len(),
        r < s.len() ==> !p(s[r as int]),
        forall|j: int| i <= j < r ==> p(s[j]),
    ensures
        scan_while(s, i, p) == r,
    decreases s.len() - i,
{
    if i < s.len() && p(s[i as int]) {
        lemma_scan_while_unique(s, (i + 1) as nat, p, r);
    }
}

/// The end of the dash run starting at `i`.
pub open spec fn dash_end(s: Seq<char>, i: nat) -> nat {
    scan_while(s, i, |c: char| c == '-')
}

/// Whether a closing delimiter stands at `j`: two or more dashes followed
/// immediately by `>`.
pub open spec fn close_at(s: Seq<char>, j: nat) -> bool {
    &&& j + 1 < s.len()
    &&& s[j as int] == '-'
    &&& s[j + 1 as int] == '-'
    &&& dash_end(s, j) < s.len()
    &&& s[dash_end(s, j) as int] == '>'
}

/// The first closing delimiter at or after `i`, or the length if none.
pub open spec fn find_close(s: Seq<char>, i: nat) -> nat
    decreases s.len() - i,
{
    if i >= s.len() {
        s.len()
    } else if close_at(s, i) {
        i
    } else {
        find_close(s, (i + 1) as nat)
    }
}

pub proof fn lemma_find_close(s: Seq<char>, i: nat)
    requires
        i <= s.len(),
    ensures
        i <= find_close(s, i) <= s.len(),
        find_close(s, i) < s.len() ==> close_at(s, find_close(s, i)),
        forall|j: nat| i <= j < find_close(s, i) ==> !close_at(s, j),
    decreases s.len() - i,
{
    if i < s.len() && !close_at(s, i) {
        lemma_find_close(s, (i + 1) as nat);
    }
}

pub proof fn lemma_find_close_unique(s: Seq<char>, i: nat, r: nat)
    requires
        i <= r <= s.len(),
        r < s.len() ==> close_at(s, r),
        forall|j: nat| i <= j < r ==> !close_at(s, j),
    ensures
        find_close(s, i) == r,
    decreases s.len() - i,
{
    if i < s.len() && !close_at(s, i) {
        lemma_find_close_unique(s, (i + 1) as nat, r);
    }
}

/// A split of a page source: the header block's inner text, verbatim, and
/// the body after it.
pub struct Split {
    pub header: Seq<char>,
    pub body: Seq<char>,
}

/// Where a page source divides into header and body.  After leading
/// whitespace the source must open with `<!` and at least two dashes; the
/// header then runs to the first `-->`-style closing delimiter.  A source
/// whose opening dash run is at least four long and ends directly in `>`
/// closes its own empty header.  Anything else is all body.
pub open spec fn split_source(s: Seq<char>) -> Split {
    let w = scan_while(s, 0, |c: char| is_space_char(c));
    if w + 4 <= s.len() && s[w as int] == '<' && s[w as int + 1] == '!' && s[w as int + 2] == '-' && s[
        w as int + 3] == '-' {
        let d = dash_end(s, (w + 2) as nat);
        let c = find_close(s, d);
        if c < s.len() {
            let e = dash_end(s, c);
            Split {
                header: s.subrange(d as int, c as int),
                body: s.subrange(e as int + 1, s.len() as int),
            }
        } else if d < s.len() && s[d as int] == '>' && d >= w + 6 {
            Split { header: Seq::empty(), body: s.subrange(d as int + 1, s.len() as int) }
        } else {
            Split { header: Seq::empty(), body: s }
        }
    } else {
        Split { header: Seq::empty(), body: s }
    }
}

/// The header keys the store recognizes.
pub open spec fn id_key() -> Seq<char> {
    seq!['t', 'a', 'g', 'w', 'i', 'k', 'i', '-', 'p', 'a', 'g', 'e', '-', 'i', 'd']
}

pub open spec fn creation_key() -> Seq<char> {
    seq![
        't', 'a', 'g', 'w', 'i', 'k', 'i', '-', 'c', 'r', 'e', 'a', 't', 'i', 'o', 'n', '-', 't',
        'i', 'm', 'e',
    ]
}

pub open spec fn modification_key() -> Seq<char> {
    seq![
        't', 'a', 'g', 'w', 'i', 'k', 'i', '-', 'm', 'o', 'd', 'i', 'f', 'i', 'c', 'a', 't', 'i',
        'o', 'n', '-', 't', 'i', 'm', 'e',
    ]
}

/// What a header block's lines denote before any defaults apply: the last
/// value seen under each recognized key, and the other lines verbatim, each
/// with its newline restored.
pub struct RawHeaders {
    pub id: Option<Seq<char>>,
    pub creation: Option<Seq<char>>,
    pub modification: Option<Seq<char>>,
    pub other: Seq<char>,
}

pub open spec fn empty_raw() -> RawHeaders {
    RawHeaders { id: None, creation: None, modification: None, other: Seq::empty() }
}

/// One header line folded into the running state.  A line splits at its
/// first colon; both key and value are trimmed; unrecognized lines pass
/// through to `other` untouched.
pub open spec fn header_step(st: RawHeaders, line: Seq<char>) -> RawHeaders {
    let ci = find_from(line, ':', 0);
    if ci < line.len() {
        let key = trim_spec(line.subrange(0, ci as int));
        let value = trim_spec(line.subrange(ci as int + 1, line.len() as int));
        if key == id_key() {
            RawHeaders {
                id: Some(value),
                creation: st.creation,
                modification: st.modification,
                other: st.other,
            }
        } else if key == creation_key() {
            RawHeaders {
                id: st.id,
                creation: Some(value),
                modification: st.modification,
                other: st.other,
            }
        } else if key == modification_key() {
            RawHeaders {
                id: st.id,
                creation: st.creation,
                modification: Some(value),
                other: st.other,
            }
        } else {
            RawHeaders {
                id: st.id,
                creation: st.creation,
                modification: st.modification,
                other: st.other + line + seq!['\n'],
            }
        }
    } else {
        RawHeaders {
            id: st.id,
            creation: st.creation,
            modification: st.modification,
            other: st.other + line + seq!['\n'],
        }
    }
}

pub open spec fn header_fold(st: RawHeaders, lines: Seq<Seq<char>>) -> RawHeaders
    decreases lines.len(),
{
    if lines.len() == 0 {
        st
    } else {
        header_fold(header_step(st, lines[0]), lines.drop_first())
    }
}

/// What the header block of `s` denotes: its inner text is trimmed before
/// the lines are read, so blank lines never pile up around the fields.
pub open spec fn headers_of_source(s: Seq<char>) -> RawHeaders {
    header_fold(empty_raw(), lines_of(trim_spec(split_source(s).header)))
}

/// The characters a tag token is made of.
pub open spec fn is_tag_char(c: char) -> bool {
    is_ascii_alnum(c) || c == '-' || c == '_'
}

/// Whether a tag token starts at `i`: a `#` directly followed by a tag
/// character.
pub open spec fn is_tag_start(s: Seq<char>, i: int) -> bool {
    &&& 0 <= i
    &&& i + 1 < s.len()
    &&& s[i] == '#'
    &&& is_tag_char(s[i + 1])
}

/// The tag token starting at `i`, case-folded: the longest run of tag
/// characters after the `#`.
pub open spec fn tag_at(s: Seq<char>, i: int) -> Seq<char> {
    lower_seq(s.subrange(i + 1, scan_while(s, (i + 1) as nat, |c: char| is_tag_char(c)) as int))
}

/// The tags of a body: every token that starts before position `n`.
pub open spec fn tags_upto(s: Seq<char>, n: int) -> Set<Seq<char>> {
    Set::new(|t: Seq<char>| exists|i: int| i < n && is_tag_start(s, i) && tag_at(s, i) == t)
}

/// The set of tags of a body.
pub open spec fn tags_of(s: Seq<char>) -> Set<Seq<char>> {
    tags_upto(s, s.len() as int)
}

pub proof fn lemma_tags_upto_zero(s: Seq<char>)
    ensures
        tags_upto(s, 0) =~= Set::<Seq<char>>::empty(),
{
}

/// Passing one position extends the tag set by at most the token starting
/// there.
pub proof fn lemma_tags_upto_step(s: Seq<char>, i: int)
    requires
        0 <= i,
    ensures
        is_tag_start(s, i) ==> tags_upto(s, i + 1) =~= tags_upto(s, i).insert(tag_at(s, i)),
        !is_tag_start(s, i) ==> tags_upto(s, i + 1) =~= tags_upto(s, i),
    {
    if is_tag_start(s, i) {
        assert forall|t: Seq<char>| tags_upto(s, i + 1).contains(t) implies tags_upto(s, i).insert(
            tag_at(s, i),
        ).contains(t) by {
            let j = choose|j: int| j < i + 1 && is_tag_start(s, j) && tag_at(s, j) == t;
            if j < i {
                assert(tags_upto(s, i).contains(t));
            }
        }
        assert forall|t: Seq<char>| tags_upto(s, i).insert(tag_at(s, i)).contains(t) implies
            tags_upto(s, i + 1).contains(t) by {
            if t == tag_at(s, i) {
                assert(i < i + 1 && is_tag_start(s, i) && tag_at(s, i) == t);
            } else {
                let j = choose|j: int| j < i && is_tag_start(s, j) && tag_at(s, j) == t;
            }
        }
    } else {
        assert forall|t: Seq<char>| tags_upto(s, i + 1).contains(t) implies tags_upto(s, i)
            .contains(t) by {
            let j = choose|j: int| j < i + 1 && is_tag_start(s, j) && tag_at(s, j) == t;
            assert(j != i);
        }
    }
}

/// Whether a heading starts at `p`: a run of `#` whose end is a whitespace
/// character.
pub open spec fn is_heading_start(s: Seq<char>, p: nat) -> bool {
    &&& p < s.len()
    &&& s[p as int] == '#'
    &&& scan_while(s, p, |c: char| c == '#') < s.len()
    &&& is_space_char(s[scan_while(s, p, |c: char| c == '#') as int])
}

/// The first heading start at or after `i`, or the length if none.
pub open spec fn find_heading(s: Seq<char>, i: nat) -> nat
    decreases s.len() - i,
{
    if i >= s.len() {
        s.len()
    } else if is_heading_start(s, i) {
        i
    } else {
        find_heading(s, (i + 1) as nat)
    }
}

pub proof fn lemma_find_heading_unique(s: Seq<char>, i: nat, r: nat)
    requires
        i <= r <= s.len(),
        r < s.len() ==> is_heading_start(s, r),
        forall|j: nat| i <= j < r ==> !is_heading_start(s, j),
    ensures
        find_heading(s, i) == r,
    decreases s.len() - i,
{
    if i < s.len() && !is_heading_start(s, i) {
        lemma_find_heading_unique(s, (i + 1) as nat, r);
    }
}

/// The first heading's text: everything from the first non-whitespace
/// character after the `#` run to the end of that line, trimmed.  Empty when
/// the body has no heading.
pub open spec fn heading_title(s: Seq<char>) -> Seq<char> {
    let p = find_heading(s, 0);
    if p < s.len() {
        let h = scan_while(s, p, |c: char| c == '#');
        let r = scan_while(s, h, |c: char| is_space_char(c));
        let e = find_from(s, '\n', r);
        trim_spec(s.subrange(r as int, e as int))
    } else {
        Seq::empty()
    }
}

/// The first sentence: everything after leading whitespace up to the first
/// period or line end, trimmed.  Empty when no period or newline follows.
pub open spec fn sentence_title(s: Seq<char>) -> Seq<char> {
    let w = scan_while(s, 0, |c: char| is_space_char(c));
    let t = scan_while(s, w, |c: char| c != '.' && c != '\n');
    if t < s.len() {
        trim_spec(s.subrange(w as int, t as int))
    } else {
        Seq::empty()
    }
}

pub open spec fn untitled() -> Seq<char> {
    seq!['U', 'n', 't', 'i', 't', 'l', 'e', 'd']
}

/// The display title of a body: its first heading, else its first sentence,
/// else a fixed placeholder.
pub open spec fn title_of(s: Seq<char>) -> Seq<char> {
    if heading_title(s).len() > 0 {
        heading_title(s)
    } else if sentence_title(s).len() > 0 {
        sentence_title(s)
    } else {
        untitled()
    }
}

} // verus!
