//! Pages: parsing raw source into structure, and printing it back.
//!
//! A page's raw source is an optional `<!--- ... -->` header of `key: value`
//! lines followed by a markup body.  Parsing extracts the id and timestamps,
//! keeps unrecognized header lines verbatim, derives the id from a content
//! hash when none is declared, and recomputes HTML, tags and title from the
//! body.  Serializing rebuilds the header in a fixed key order and appends
//! the body unchanged.

pub mod grammar;
pub mod hash;
pub mod markdown;
pub mod store;

use vstd::prelude::*;

use crate::page::grammar::creation_key;
use crate::page::grammar::header_fold;
use crate::page::grammar::header_step;
use crate::page::grammar::headers_of_source;
use crate::page::grammar::id_key;
use crate::page::grammar::is_tag_char;
use crate::page::grammar::modification_key;
use crate::page::grammar::split_source;
use crate::page::grammar::tags_of;
use crate::page::grammar::title_of;
use crate::page::grammar::RawHeaders;
use crate::page::hash::content_id;
use crate::page::hash::content_id_of;
use crate::page::markdown::html_of;
use crate::page::markdown::render_markdown;
use crate::strmap::StrSet;
use crate::text::is_ascii_alnum;
use crate::text::is_space_char;
use crate::text::lines_of;
use crate::text::no_cr_before_newline;
use crate::text::trim_spec;
use crate::util::is_canonical_ts;
use crate::util::normalize_rfc3339;
use crate::util::now_rfc3339;
use crate::util::random_string;
use crate::util::rfc3339_norm;
use vstd::string::StrSliceExecFns;
use vstd::string::StringExecFns;

verus! {

pub type Id = String;

pub type Tag = String;

/// The raw text of a page file.
#[derive(Debug)]
pub struct Source(pub String);

impl Clone for Source {
    fn clone(&self) -> (r: Self)
        ensures
            r == *self,
    {
        Source(self.0.clone())
    }
}

impl Default for Source {
    fn default() -> (r: Self)
        ensures
            r.0@.len() == 0,
    {
        Source(String::new())
    }
}

/// The structured header of a page: its identity, its timestamps in
/// canonical RFC 3339 form, and every unrecognized header line verbatim.
#[derive(Debug)]
pub struct Headers {
    pub id: String,
    pub creation_time: String,
    pub modification_time: String,
    pub other: String,
}

impl Clone for Headers {
    fn clone(&self) -> (r: Self)
        ensures
            r == *self,
    {
        Headers {
            id: self.id.clone(),
            creation_time: self.creation_time.clone(),
            modification_time: self.modification_time.clone(),
            other: self.other.clone(),
        }
    }
}

/// The mathematical content of a `Headers`.
pub struct HeadersView {
    pub id: Seq<char>,
    pub creation: Seq<char>,
    pub modification: Seq<char>,
    pub other: Seq<char>,
}

impl View for Headers {
    type V = HeadersView;

    open spec fn view(&self) -> HeadersView {
        HeadersView {
            id: self.id@,
            creation: self.creation_time@,
            modification: self.modification_time@,
            other: self.other@,
        }
    }
}

/// No `-->`-style closing delimiter occurs in `s`; embedding `s` in a header
/// block then cannot end the block early.
pub open spec fn no_close_mark(s: Seq<char>) -> bool {
    forall|i: int|
        0 <= i && i + 2 < s.len() ==> !(s[i] == '-' && #[trigger] s[i + 1] == '-' && s[i + 2]
            == '>')
}

/// An identifier that survives being written on a header line: non-empty,
/// newline-free, already trimmed, and free of closing delimiters.
pub open spec fn id_ok(id: Seq<char>) -> bool {
    &&& id.len() > 0
    &&& trim_spec(id) == id
    &&& forall|i: int| 0 <= i < id.len() ==> id[i] != '\n'
    &&& no_close_mark(id)
}

/// A line that the header parser passes through: either without a colon, or
/// with a key that is none of the recognized ones.
pub open spec fn line_unrecognized(l: Seq<char>) -> bool {
    let ci = crate::text::find_from(l, ':', 0);
    ci < l.len() ==> {
        let key = trim_spec(l.subrange(0, ci as int));
        key != id_key() && key != creation_key() && key != modification_key()
    }
}

/// The shape every parsed `other` block has: newline-terminated lines, none
/// of them recognized, and no closing delimiter.
pub open spec fn other_ok(o: Seq<char>) -> bool {
    o.len() == 0 || {
        &&& o[o.len() - 1] == '\n'
        &&& no_close_mark(o)
        &&& forall|i: int|
            0 <= i < lines_of(o).len() ==> line_unrecognized(#[trigger] lines_of(o)[i])
    }
}

/// The stricter shape under which serialization inverts exactly: besides
/// `other_ok`, no line ends in a carriage return, and the block's last line
/// is non-empty and does not end in whitespace, so neither line splitting
/// nor trimming the reparsed header loses anything.
pub open spec fn other_exact(o: Seq<char>) -> bool {
    other_ok(o) && no_cr_before_newline(o) && (o.len() == 0 || (o.len() >= 2 && !is_space_char(
        o[o.len() - 2],
    )))
}

/// Headers every page of this store carries: a writable id, canonical
/// timestamps, and a well-shaped pass-through block.
pub open spec fn wf_headers(h: HeadersView) -> bool {
    &&& id_ok(h.id)
    &&& is_canonical_ts(h.creation)
    &&& is_canonical_ts(h.modification)
    &&& other_ok(h.other)
}

/// The serialized header block of `h`: a fixed key order, one line per
/// recognized key, then the pass-through lines, closed by the delimiter.
pub open spec fn header_block(h: HeadersView) -> Seq<char> {
    seq!['<', '!', '-', '-', '-', '\n'] + id_key() + seq![':', ' '] + h.id + seq!['\n']
        + creation_key() + seq![':', ' '] + h.creation + seq!['\n'] + modification_key() + seq![
        ':',
        ' ',
    ] + h.modification + seq!['\n'] + h.other + seq!['-', '-', '>']
}

/// The full serialized source: header block, then the body verbatim.
pub open spec fn page_source_of(h: HeadersView, body: Seq<char>) -> Seq<char> {
    header_block(h) + body
}

/// The spec-level keys, pinned to the exec string literals.
pub proof fn lemma_key_literals()
    ensures
        "tagwiki-page-id"@ == id_key(),
        "tagwiki-creation-time"@ == creation_key(),
        "tagwiki-modification-time"@ == modification_key(),
        "<!---\n"@ == seq!['<', '!', '-', '-', '-', '\n'],
        ": "@ == seq![':', ' '],
        "\n"@ == seq!['\n'],
        "-->"@ == seq!['-', '-', '>'],
        "Untitled"@ == crate::page::grammar::untitled(),
{
    reveal_strlit("tagwiki-page-id");
    reveal_strlit("tagwiki-creation-time");
    reveal_strlit("tagwiki-modification-time");
    reveal_strlit("<!---\n");
    reveal_strlit(": ");
    reveal_strlit("\n");
    reveal_strlit("-->");
    reveal_strlit("Untitled");
    assert("tagwiki-page-id"@ =~= id_key());
    assert("tagwiki-creation-time"@ =~= creation_key());
    assert("tagwiki-modification-time"@ =~= modification_key());
    assert("<!---\n"@ =~= seq!['<', '!', '-', '-', '-', '\n']);
    assert(": "@ =~= seq![':', ' ']);
    assert("\n"@ =~= seq!['\n']);
    assert("-->"@ =~= seq!['-', '-', '>']);
    assert("Untitled"@ =~= crate::page::grammar::untitled());
}

impl Headers {
    /// The serialized header block: fixed key order, then the pass-through
    /// lines, closed by the delimiter.
    pub fn to_markdown_string(&self) -> (r: String)
        ensures
            r@ == header_block(self@),
    {
        proof {
            lemma_key_literals();
        }
        let mut r = String::new();
        r.append("<!---\n");
        r.append("tagwiki-page-id");
        r.append(": ");
        r.append(self.id.as_str());
        r.append("\n");
        r.append("tagwiki-creation-time");
        r.append(": ");
        r.append(self.creation_time.as_str());
        r.append("\n");
        r.append("tagwiki-modification-time");
        r.append(": ");
        r.append(self.modification_time.as_str());
        r.append("\n");
        r.append(self.other.as_str());
        r.append("-->");
        proof {
            assert(r@ =~= header_block(self@));
        }
        r
    }
}

impl Default for Headers {
    /// A fresh header: a random 16-character id, both timestamps now, and no
    /// pass-through lines.
    fn default() -> (r: Self)
        ensures
            wf_headers(r@),
            r@.other.len() == 0,
            r@.id.len() == 16,
            forall|i: int| 0 <= i < r@.id.len() ==> is_ascii_alnum(#[trigger] r@.id[i]),
    {
        let id = random_string(16);
        let r = Headers {
            id,
            creation_time: now_rfc3339(),
            modification_time: now_rfc3339(),
            other: String::new(),
        };
        proof {
            lemma_alnum_id_ok(r@.id);
        }
        r
    }
}

/// A non-empty all-alphanumeric string is a usable id.
pub proof fn lemma_alnum_id_ok(id: Seq<char>)
    requires
        id.len() > 0,
        forall|i: int| 0 <= i < id.len() ==> is_ascii_alnum(#[trigger] id[i]),
    ensures
        id_ok(id),
{
    crate::text::lemma_trim_noop(id);
}

/// A parsed page: the raw source it serializes to, the body, the rendered
/// HTML, the header fields, and the tags and title the body yields.
#[derive(Debug)]
pub struct Parsed {
    pub source: Source,
    pub source_body: String,
    pub html: String,
    pub headers: Headers,
    pub tags: StrSet,
    pub title: String,
}

/// The mathematical content of a `Parsed`.
pub struct PageView {
    pub headers: HeadersView,
    pub body: Seq<char>,
    pub source: Seq<char>,
    pub html: Seq<char>,
    pub tags: Set<Seq<char>>,
    pub title: Seq<char>,
}

impl View for Parsed {
    type V = PageView;

    open spec fn view(&self) -> PageView {
        PageView {
            headers: self.headers@,
            body: self.source_body@,
            source: self.source.0@,
            html: self.html@,
            tags: self.tags@,
            title: self.title@,
        }
    }
}

impl Clone for Parsed {
    fn clone(&self) -> (r: Self)
        ensures
            r@ == self@,
            r.wf() == self.wf(),
    {
        let r = Parsed {
            source: self.source.clone(),
            source_body: self.source_body.clone(),
            html: self.html.clone(),
            headers: self.headers.clone(),
            tags: self.tags.clone(),
            title: self.title.clone(),
        };
        proof {
            assert(r@ == self@);
        }
        r
    }
}

impl Parsed {
    /// Every `Parsed` the crate hands out satisfies this: the header fields
    /// are well-formed, and source, HTML, tags and title all agree with the
    /// header fields and the body.
    pub open spec fn wf(&self) -> bool {
        &&& self.tags.wf()
        &&& wf_headers(self@.headers)
        &&& self@.source == page_source_of(self@.headers, self@.body)
        &&& self@.html == html_of(self@.body)
        &&& self@.tags == tags_of(self@.body)
        &&& self@.title == title_of(self@.body)
    }

    /// The page's identifier.
    pub fn id(&self) -> (r: &str)
        ensures
            r@ == self@.headers.id,
    {
        self.headers.id.as_str()
    }
}

/// The tags of a body: every case-folded `#word` token in it.
pub fn parse_tags(body: &str) -> (r: StrSet)
    ensures
        r.wf(),
        r@ == tags_of(body@),
{
    let v = crate::text::chars_of(body);
    let mut r = StrSet::new();
    proof {
        crate::page::grammar::lemma_tags_upto_zero(v@);
    }
    let mut i: usize = 0;
    while i < v.len()
        invariant
            v@ == body@,
            i <= v@.len(),
            r@ =~= crate::page::grammar::tags_upto(v@, i as int),
        decreases v@.len() - i,
    {
        let is_start = i + 1 < v.len() && v[i] == '#' && tag_char(v[i + 1]);
        if is_start {
            let mut j: usize = i + 1;
            while j < v.len() && tag_char(v[j])
                invariant
                    i + 1 <= j <= v@.len(),
                    forall|k: int| i + 1 <= k < j ==> is_tag_char(#[trigger] v@[k]),
                decreases v@.len() - j,
            {
                j += 1;
            }
            proof {
                crate::page::grammar::lemma_scan_while_unique(
                    v@,
                    (i + 1) as nat,
                    |c: char| is_tag_char(c),
                    j as nat,
                );
            }
            let mut t = String::new();
            let mut k: usize = i + 1;
            while k < j
                invariant
                    i + 1 <= k <= j <= v@.len(),
                    t@ =~= crate::text::lower_seq(v@.subrange(i as int + 1, k as int)),
                decreases j - k,
            {
                crate::text::push_char(&mut t, crate::text::to_lower_char(v[k]));
                k += 1;
                assert(t@ =~= crate::text::lower_seq(v@.subrange(i as int + 1, k as int)));
            }
            proof {
                assert(t@ == crate::page::grammar::tag_at(v@, i as int));
            }
            r.insert(t);
            proof {
                crate::page::grammar::lemma_tags_upto_step(v@, i as int);
            }
        } else {
            proof {
                crate::page::grammar::lemma_tags_upto_step(v@, i as int);
            }
        }
        i += 1;
    }
    proof {
        use_type_invariant(&r);
        assert(r@ =~= tags_of(body@));
    }
    r
}

/// Exec mirror of `is_tag_char`.
fn tag_char(c: char) -> (r: bool)
    ensures
        r == is_tag_char(c),
{
    crate::text::ascii_alnum(c) || c == '-' || c == '_'
}

/// The first position where a heading starts, or the length if none does.
fn find_heading_exec(v: &Vec<char>) -> (p: usize)
    ensures
        p as nat == crate::page::grammar::find_heading(v@, 0),
        p <= v@.len(),
{
    let mut p: usize = 0;
    while p < v.len()
        invariant
            p <= v@.len(),
            forall|j: nat| j < p ==> !crate::page::grammar::is_heading_start(v@, j),
        decreases v@.len() - p,
    {
        if v[p] == '#' {
            let mut h: usize = p;
            while h < v.len() && v[h] == '#'
                invariant
                    p <= h <= v@.len(),
                    forall|k: int| p <= k < h ==> v@[k] == '#',
                decreases v@.len() - h,
            {
                h += 1;
            }
            proof {
                crate::page::grammar::lemma_scan_while_unique(
                    v@,
                    p as nat,
                    |c: char| c == '#',
                    h as nat,
                );
            }
            if h < v.len() && crate::text::space_char(v[h]) {
                proof {
                    crate::page::grammar::lemma_find_heading_unique(v@, 0, p as nat);
                }
                return p;
            }
            assert(!crate::page::grammar::is_heading_start(v@, p as nat));
        } else {
            assert(!crate::page::grammar::is_heading_start(v@, p as nat));
        }
        p += 1;
    }
    proof {
        crate::page::grammar::lemma_find_heading_unique(v@, 0, v@.len());
    }
    p
}

/// The display title of a body: its first heading, else its first sentence,
/// else the fixed placeholder.
pub fn parse_title(body: &str) -> (r: String)
    ensures
        r@ == title_of(body@),
{
    let v = crate::text::chars_of(body);
    let p = find_heading_exec(&v);
    if p < v.len() {
        let mut h: usize = p;
        while h < v.len() && v[h] == '#'
            invariant
                p <= h <= v@.len(),
                forall|k: int| p <= k < h ==> v@[k] == '#',
            decreases v@.len() - h,
        {
            h += 1;
        }
        proof {
            crate::page::grammar::lemma_scan_while_unique(
                v@,
                p as nat,
                |c: char| c == '#',
                h as nat,
            );
        }
        let mut r0: usize = h;
        while r0 < v.len() && crate::text::space_char(v[r0])
            invariant
                h <= r0 <= v@.len(),
                forall|k: int| h <= k < r0 ==> is_space_char(#[trigger] v@[k]),
            decreases v@.len() - r0,
        {
            r0 += 1;
        }
        proof {
            crate::page::grammar::lemma_scan_while_unique(
                v@,
                h as nat,
                |c: char| is_space_char(c),
                r0 as nat,
            );
        }
        let e = crate::text::find_char_range(&v, r0, v.len(), '\n');
        proof {
            crate::text::lemma_find_from_unique(v@, '\n', r0 as nat, e as nat);
        }
        let (a, b) = crate::text::trim_range(&v, r0, e);
        if b > a {
            let t = crate::text::string_from_range(&v, a, b);
            proof {
                assert(t@ == crate::page::grammar::heading_title(v@));
            }
            return t;
        }
        proof {
            assert(crate::page::grammar::heading_title(v@).len() == 0);
        }
    }
    let mut w: usize = 0;
    while w < v.len() && crate::text::space_char(v[w])
        invariant
            w <= v@.len(),
            forall|k: int| 0 <= k < w ==> is_space_char(#[trigger] v@[k]),
        decreases v@.len() - w,
    {
        w += 1;
    }
    proof {
        crate::page::grammar::lemma_scan_while_unique(
            v@,
            0,
            |c: char| is_space_char(c),
            w as nat,
        );
    }
    let mut t: usize = w;
    while t < v.len() && v[t] != '.' && v[t] != '\n'
        invariant
            w <= t <= v@.len(),
            forall|k: int| w <= k < t ==> v@[k] != '.' && #[trigger] v@[k] != '\n',
        decreases v@.len() - t,
    {
        t += 1;
    }
    proof {
        crate::page::grammar::lemma_scan_while_unique(
            v@,
            w as nat,
            |c: char| c != '.' && c != '\n',
            t as nat,
        );
    }
    if t < v.len() {
        let (a, b) = crate::text::trim_range(&v, w, t);
        if b > a {
            let s = crate::text::string_from_range(&v, a, b);
            proof {
                assert(s@ == crate::page::grammar::sentence_title(v@));
            }
            return s;
        }
        proof {
            assert(crate::page::grammar::sentence_title(v@).len() == 0);
        }
    } else {
        proof {
            assert(crate::page::grammar::sentence_title(v@).len() == 0);
        }
    }
    proof {
        lemma_key_literals();
    }
    String::from_str("Untitled")
}

proof fn lemma_no_close_trim_end(x: Seq<char>)
    requires
        no_close_mark(x),
    ensures
        no_close_mark(crate::text::trim_end_spec(x)),
    decreases x.len(),
{
    if !(x.len() == 0 || !is_space_char(x[x.len() - 1])) {
        assert(no_close_mark(x.drop_last())) by {
            assert(forall|i: int|
                0 <= i && i + 2 < x.drop_last().len() ==> x.drop_last()[i] == x[i]
                    && #[trigger] x.drop_last()[i + 1] == x[i + 1] && x.drop_last()[i + 2] == x[i
                    + 2]);
        }
        lemma_no_close_trim_end(x.drop_last());
    }
}

proof fn lemma_no_close_trim_start(x: Seq<char>)
    requires
        no_close_mark(x),
    ensures
        no_close_mark(crate::text::trim_start_spec(x)),
    decreases x.len(),
{
    if !(x.len() == 0 || !is_space_char(x[0])) {
        assert(no_close_mark(x.drop_first())) by {
            assert(forall|i: int|
                0 <= i && i + 2 < x.drop_first().len() ==> x.drop_first()[i] == x[i + 1]
                    && #[trigger] x.drop_first()[i + 1] == x[i + 2] && x.drop_first()[i + 2] == x[i
                    + 3]);
        }
        lemma_no_close_trim_start(x.drop_first());
    }
}

/// Trimming cannot introduce a closing delimiter.
pub proof fn lemma_no_close_trim(x: Seq<char>)
    requires
        no_close_mark(x),
    ensures
        no_close_mark(trim_spec(x)),
{
    lemma_no_close_trim_end(x);
    lemma_no_close_trim_start(crate::text::trim_end_spec(x));
}

/// The header block a split yields never holds a closing delimiter: the
/// split ends at the first one.
pub proof fn lemma_split_header_no_close(s: Seq<char>)
    ensures
        no_close_mark(split_source(s).header),
{
    let w = crate::page::grammar::scan_while(s, 0, |c: char| is_space_char(c));
    if w + 4 <= s.len() && s[w as int] == '<' && s[w as int + 1] == '!' && s[w as int + 2] == '-'
        && s[w as int + 3] == '-' {
        let d = crate::page::grammar::dash_end(s, (w + 2) as nat);
        crate::page::grammar::lemma_scan_while(s, (w + 2) as nat, |c: char| c == '-');
        let c = crate::page::grammar::find_close(s, d);
        crate::page::grammar::lemma_find_close(s, d);
        if c < s.len() {
            let inner = s.subrange(d as int, c as int);
            assert(no_close_mark(inner)) by {
                assert forall|i: int|
                    0 <= i && i + 2 < inner.len() implies !(inner[i] == '-'
                    && #[trigger] inner[i + 1] == '-' && inner[i + 2] == '>') by {
                    if inner[i] == '-' && inner[i + 1] == '-' && inner[i + 2] == '>' {
                        let j = (d + i) as nat;
                        assert(s[j as int] == '-');
                        assert(s[j as int + 1] == '-');
                        assert(s[j as int + 2] == '>');
                        crate::page::grammar::lemma_scan_while_unique(
                            s,
                            j,
                            |ch: char| ch == '-',
                            (j + 2) as nat,
                        );
                        assert(crate::page::grammar::close_at(s, j));
                    }
                }
            }
            assert(split_source(s).header == inner);
        }
    }
}

/// Splits a raw source into the trimmed inner text of its header block and
/// the body after it.
pub fn split_headers_and_body<'a>(source: &'a Source) -> (r: (&'a str, &'a str))
    ensures
        r.0@ == split_source(source.0@).header,
        r.1@ == split_source(source.0@).body,
{
    let s = source.0.as_str();
    let v = crate::text::chars_of(s);
    let mut w: usize = 0;
    while w < v.len() && crate::text::space_char(v[w])
        invariant
            w <= v@.len(),
            forall|k: int| 0 <= k < w ==> is_space_char(#[trigger] v@[k]),
        decreases v@.len() - w,
    {
        w += 1;
    }
    proof {
        crate::page::grammar::lemma_scan_while_unique(
            v@,
            0,
            |c: char| is_space_char(c),
            w as nat,
        );
    }
    if !(v.len() >= 4 && w <= v.len() - 4 && v[w] == '<' && v[w + 1] == '!' && v[w + 2] == '-'
        && v[w + 3] == '-') {
        let empty = s.substring_char(0, 0);
        proof {
            assert(empty@ =~= split_source(s@).header);
        }
        return (empty, s);
    }
    let mut d: usize = w + 2;
    while d < v.len() && v[d] == '-'
        invariant
            w + 2 <= d <= v@.len(),
            forall|k: int| w + 2 <= k < d ==> v@[k] == '-',
        decreases v@.len() - d,
    {
        d += 1;
    }
    proof {
        crate::page::grammar::lemma_scan_while_unique(
            v@,
            (w + 2) as nat,
            |c: char| c == '-',
            d as nat,
        );
    }
    let mut j: usize = d;
    while j < v.len()
        invariant
            v@ == s@,
            s@ == source.0@,
            d <= j <= v@.len(),
            w + 2 <= d <= v@.len(),
            v@.len() >= 4,
            w <= v@.len() - 4,
            forall|k: int| 0 <= k < w ==> is_space_char(#[trigger] v@[k]),
            v@[w as int] == '<',
            v@[w as int + 1] == '!',
            v@[w as int + 2] == '-',
            v@[w as int + 3] == '-',
            forall|k: int| w + 2 <= k < d ==> v@[k] == '-',
            d < v@.len() ==> v@[d as int] != '-',
            forall|k: nat| d <= k < j ==> !crate::page::grammar::close_at(v@, k),
        decreases v@.len() - j,
    {
        if j + 1 < v.len() && v[j] == '-' && v[j + 1] == '-' {
            let mut e: usize = j;
            while e < v.len() && v[e] == '-'
                invariant
                    j <= e <= v@.len(),
                    forall|k: int| j <= k < e ==> v@[k] == '-',
                decreases v@.len() - e,
            {
                e += 1;
            }
            proof {
                crate::page::grammar::lemma_scan_while_unique(
                    v@,
                    j as nat,
                    |c: char| c == '-',
                    e as nat,
                );
            }
            if e < v.len() && v[e] == '>' {
                proof {
                    crate::page::grammar::lemma_scan_while_unique(
                        v@,
                        0,
                        |c: char| is_space_char(c),
                        w as nat,
                    );
                    crate::page::grammar::lemma_scan_while_unique(
                        v@,
                        (w + 2) as nat,
                        |c: char| c == '-',
                        d as nat,
                    );
                    assert(crate::page::grammar::close_at(v@, j as nat));
                    crate::page::grammar::lemma_find_close_unique(v@, d as nat, j as nat);
                }
                let header = s.substring_char(d, j);
                let body = s.substring_char(e + 1, v.len());
                proof {
                    assert(header@ == split_source(s@).header);
                    assert(body@ == split_source(s@).body);
                }
                return (header, body);
            }
            assert(!crate::page::grammar::close_at(v@, j as nat));
        } else {
            assert(!crate::page::grammar::close_at(v@, j as nat));
        }
        j += 1;
    }
    proof {
        crate::page::grammar::lemma_find_close_unique(v@, d as nat, v@.len());
    }
    if d < v.len() && v[d] == '>' && d - w >= 6 {
        let empty = s.substring_char(0, 0);
        let body = s.substring_char(d + 1, v.len());
        proof {
            assert(empty@ =~= split_source(s@).header);
            assert(body@ == split_source(s@).body);
        }
        return (empty, body);
    }
    let empty = s.substring_char(0, 0);
    proof {
        assert(empty@ =~= split_source(s@).header);
    }
    (empty, s)
}

/// Builds the full page for a header and body: the canonical source, the
/// rendered HTML, and the tags and title of the body.
fn from_headers_and_body(headers: Headers, body: String) -> (r: Parsed)
    requires
        wf_headers(headers@),
    ensures
        r.wf(),
        r@.headers == headers@,
        r@.body == body@,
{
    let mut src = headers.to_markdown_string();
    src.append(body.as_str());
    let html = render_markdown(body.as_str());
    let title = parse_title(body.as_str());
    let tags = parse_tags(body.as_str());
    let r = Parsed { source: Source(src), source_body: body, html, headers, tags, title };
    proof {
        assert(r@.source =~= page_source_of(r@.headers, r@.body));
    }
    r
}

impl Parsed {
    /// A brand-new page for a body: a fresh random id, both timestamps now.
    pub fn new(body: &str) -> (r: Parsed)
        ensures
            r.wf(),
            r@.body == body@,
            r@.headers.other.len() == 0,
            r@.headers.id.len() == 16,
            forall|i: int| 0 <= i < r@.headers.id.len() ==> is_ascii_alnum(#[trigger] r@.headers.id[i]),
    {
        let id = random_string(16);
        proof {
            lemma_alnum_id_ok(id@);
        }
        let headers = Headers {
            id,
            creation_time: now_rfc3339(),
            modification_time: now_rfc3339(),
            other: String::new(),
        };
        from_headers_and_body(headers, String::from_str(body))
    }

    /// The same page with a new body: id, creation time and pass-through
    /// lines kept, HTML, tags and title recomputed.  The modification time
    /// moves only when `update_modification_time` is called.
    pub fn with_new_source_body(&self, new_body_source: &str) -> (r: Parsed)
        requires
            self.wf(),
        ensures
            r.wf(),
            r@.headers == self@.headers,
            r@.body == new_body_source@,
    {
        from_headers_and_body(self.headers.clone(), String::from_str(new_body_source))
    }

    /// Stamps the page as modified now, keeping everything else.
    pub fn update_modification_time(&mut self)
        requires
            old(self).wf(),
        ensures
            final(self).wf(),
            final(self)@.headers.id == old(self)@.headers.id,
            final(self)@.headers.creation == old(self)@.headers.creation,
            final(self)@.headers.other == old(self)@.headers.other,
            final(self)@.body == old(self)@.body,
            final(self)@.tags == old(self)@.tags,
            final(self)@.title == old(self)@.title,
            is_canonical_ts(final(self)@.headers.modification),
    {
        self.headers.modification_time = now_rfc3339();
        let mut src = self.headers.to_markdown_string();
        src.append(self.source_body.as_str());
        self.source = Source(src);
        proof {
            assert(self@.source =~= page_source_of(self@.headers, self@.body));
        }
    }
}

/// The view of an optional string.
pub open spec fn opt_view(o: Option<String>) -> Option<Seq<char>> {
    match o {
        Some(x) => Some(x@),
        None => None,
    }
}

/// A value fit for a header field: trimmed, single-line, delimiter-free.
pub open spec fn value_ok(v: Seq<char>) -> bool {
    &&& trim_spec(v) == v
    &&& forall|i: int| 0 <= i < v.len() ==> v[i] != '\n'
    &&& no_close_mark(v)
}

/// Appending a newline-terminated, delimiter-free line to a block of full
/// lines cannot form a closing delimiter.
proof fn lemma_no_close_append_line(o: Seq<char>, line: Seq<char>)
    requires
        o.len() == 0 || o[o.len() - 1] == '\n',
        no_close_mark(o),
        no_close_mark(line),
        forall|j: int| 0 <= j < line.len() ==> line[j] != '\n',
    ensures
        no_close_mark(o + line + seq!['\n']),
{
    let s = o + line + seq!['\n'];
    let n = o.len() as int;
    let m = line.len() as int;
    assert forall|i: int|
        0 <= i && i + 2 < s.len() implies !(s[i] == '-' && #[trigger] s[i + 1] == '-' && s[i + 2]
        == '>') by {
        if s[i] == '-' && s[i + 1] == '-' && s[i + 2] == '>' {
            if i + 2 < n {
                assert(s[i] == o[i] && s[i + 1] == o[i + 1] && s[i + 2] == o[i + 2]);
            } else if i >= n {
                assert(i + 2 < n + m) by {
                    if i + 2 == n + m {
                        assert(s[i + 2] == '\n');
                    }
                }
                assert(s[i] == line[i - n] && s[i + 1] == line[i - n + 1] && s[i + 2] == line[i - n
                    + 2]);
            } else {
                assert(o.len() > 0);
                assert(s[n - 1] == o[o.len() - 1]);
                assert(i <= n - 1 <= i + 2);
            }
        }
    }
}

/// Stripping a line's carriage return keeps it unrecognized.
proof fn lemma_unrecognized_strip_cr(l: Seq<char>)
    requires
        line_unrecognized(l),
    ensures
        line_unrecognized(crate::text::strip_cr(l)),
{
    crate::text::lemma_strip_cr_colon(l);
}

/// What a `Parsed` built from raw source `s` looks like: the split body,
/// the folded header fields with their defaults (hash-derived id, current
/// time for missing or unreadable timestamps), and the derived fields.
pub open spec fn parse_rel(s: Seq<char>, pv: PageView) -> bool {
    let raw = headers_of_source(s);
    let sp = split_source(s);
    &&& pv.body == sp.body
    &&& pv.headers.other == raw.other
    &&& (match raw.id {
        Some(v) => if v.len() > 0 {
            pv.headers.id == v
        } else {
            pv.headers.id == content_id_of(s)
        },
        None => pv.headers.id == content_id_of(s),
    })
    &&& (match raw.creation {
        Some(v) => (rfc3339_norm(v) matches Some(t) ==> pv.headers.creation == t),
        None => true,
    })
    &&& (match raw.modification {
        Some(v) => (rfc3339_norm(v) matches Some(t) ==> pv.headers.modification == t),
        None => true,
    })
    &&& is_canonical_ts(pv.headers.creation)
    &&& is_canonical_ts(pv.headers.modification)
    &&& pv.source == page_source_of(pv.headers, pv.body)
    &&& pv.html == html_of(pv.body)
    &&& pv.tags == tags_of(pv.body)
    &&& pv.title == title_of(pv.body)
}

/// Appends one pass-through line and its newline to the `other` block,
/// keeping the block's shape.
fn push_other_line(other: &mut String, hv: &Vec<char>, pos: usize, line_end: usize)
    requires
        pos <= line_end <= hv@.len(),
        forall|k: int| pos <= k < line_end ==> hv@[k] != '\n',
        no_close_mark(hv@),
        line_unrecognized(hv@.subrange(pos as int, line_end as int)),
        old(other)@.len() == 0 || old(other)@[old(other)@.len() - 1] == '\n',
        no_close_mark(old(other)@),
        forall|i: int|
            0 <= i < lines_of(old(other)@).len() ==> line_unrecognized(
                #[trigger] lines_of(old(other)@)[i],
            ),
    ensures
        final(other)@ == old(other)@ + hv@.subrange(pos as int, line_end as int) + seq!['\n'],
        final(other)@.len() > 0 && final(other)@[final(other)@.len() - 1] == '\n',
        no_close_mark(final(other)@),
        forall|i: int|
            0 <= i < lines_of(final(other)@).len() ==> line_unrecognized(
                #[trigger] lines_of(final(other)@)[i],
            ),
{
    proof {
        lemma_key_literals();
    }
    let ghost o0 = other@;
    let ghost line = hv@.subrange(pos as int, line_end as int);
    let ls = crate::text::string_from_range(hv, pos, line_end);
    other.append(ls.as_str());
    other.append("\n");
    proof {
        assert(no_close_mark(line)) by {
            assert(forall|i: int|
                0 <= i && i + 2 < line.len() ==> line[i] == hv@[pos + i] && #[trigger] line[i + 1]
                    == hv@[pos + i + 1] && line[i + 2] == hv@[pos + i + 2]);
        }
        lemma_no_close_append_line(o0, line);
        crate::text::lemma_lines_append_line(o0, line);
        lemma_unrecognized_strip_cr(line);
        assert(other@ =~= o0 + line + seq!['\n']);
        assert forall|i: int| 0 <= i < lines_of(other@).len() implies line_unrecognized(
            #[trigger] lines_of(other@)[i],
        ) by {
            assert(lines_of(other@) =~= lines_of(o0) + seq![crate::text::strip_cr(line)]);
            if i < lines_of(o0).len() {
                assert(lines_of(other@)[i] == lines_of(o0)[i]);
            } else {
                assert(lines_of(other@)[i] == crate::text::strip_cr(line));
            }
        }
    }
}

/// Folds the header block's lines into header fields and applies the
/// defaults: a hash of `source` for a missing or empty id, the current time
/// for missing or unreadable timestamps.
#[verifier::rlimit(100)]
#[verifier::spinoff_prover]
fn parse_header_fields(header: &str, source: &str) -> (r: Headers)
    requires
        no_close_mark(header@),
    ensures
        wf_headers(r@),
        ({
            let raw = header_fold(crate::page::grammar::empty_raw(), lines_of(header@));
            &&& r@.other == raw.other
            &&& (match raw.id {
                Some(v) => if v.len() > 0 {
                    r@.id == v
                } else {
                    r@.id == content_id_of(source@)
                },
                None => r@.id == content_id_of(source@),
            })
            &&& (match raw.creation {
                Some(v) => (rfc3339_norm(v) matches Some(t) ==> r@.creation == t),
                None => true,
            })
            &&& (match raw.modification {
                Some(v) => (rfc3339_norm(v) matches Some(t) ==> r@.modification == t),
                None => true,
            })
        }),
{
    let hv = crate::text::chars_of(header);
    let ghost full = header_fold(crate::page::grammar::empty_raw(), lines_of(hv@));
    let mut id_s: Option<String> = None;
    let mut cr_s: Option<String> = None;
    let mut mo_s: Option<String> = None;
    let mut other_s: String = String::new();
    let mut pos: usize = 0;
    proof {
        assert(hv@.subrange(0, hv@.len() as int) =~= hv@);
        assert(other_s@ =~= Seq::<char>::empty());
        assert(RawHeaders {
            id: opt_view(id_s),
            creation: opt_view(cr_s),
            modification: opt_view(mo_s),
            other: other_s@,
        } == crate::page::grammar::empty_raw());
    }
    while pos < hv.len()
        invariant
            hv@ == header@,
            no_close_mark(hv@),
            pos <= hv@.len(),
            full == header_fold(crate::page::grammar::empty_raw(), lines_of(hv@)),
            full == header_fold(
                RawHeaders {
                    id: opt_view(id_s),
                    creation: opt_view(cr_s),
                    modification: opt_view(mo_s),
                    other: other_s@,
                },
                lines_of(hv@.subrange(pos as int, hv@.len() as int)),
            ),
            id_s matches Some(x) ==> value_ok(x@),
            cr_s matches Some(x) ==> value_ok(x@),
            mo_s matches Some(x) ==> value_ok(x@),
            other_s@.len() == 0 || other_s@[other_s@.len() - 1] == '\n',
            no_close_mark(other_s@),
            forall|i: int|
                0 <= i < lines_of(other_s@).len() ==> line_unrecognized(
                    #[trigger] lines_of(other_s@)[i],
                ),
        decreases hv@.len() - pos,
    {
        let ghost cur = RawHeaders {
            id: opt_view(id_s),
            creation: opt_view(cr_s),
            modification: opt_view(mo_s),
            other: other_s@,
        };
        let ghost rem = hv@.subrange(pos as int, hv@.len() as int);
        let nl = crate::text::find_char_range(&hv, pos, hv.len(), '\n');
        let line_end = if nl > pos && hv[nl - 1] == '\r' {
            nl - 1
        } else {
            nl
        };
        let ghost region = hv@.subrange(pos as int, nl as int);
        let ghost line = hv@.subrange(pos as int, line_end as int);
        proof {
            lemma_key_literals();
            assert(line =~= crate::text::strip_cr(region));
            if nl < hv@.len() {
                assert(rem =~= region + seq!['\n'] + hv@.subrange(
                    nl as int + 1,
                    hv@.len() as int,
                ));
                crate::text::lemma_lines_step(region, hv@.subrange(nl as int + 1, hv@.len() as int));
            } else {
                assert(rem =~= region);
                crate::text::lemma_lines_single(region);
                assert(lines_of(rem) =~= seq![line]);
            }
        }
        let ghost next_rem_lines = if nl < hv@.len() {
            lines_of(hv@.subrange(nl as int + 1, hv@.len() as int))
        } else {
            Seq::<Seq<char>>::empty()
        };
        proof {
            assert(lines_of(rem) =~= seq![line] + next_rem_lines);
            assert(lines_of(rem)[0] == line);
            assert(lines_of(rem).drop_first() =~= next_rem_lines);
            assert(header_fold(cur, lines_of(rem)) == header_fold(
                header_step(cur, line),
                next_rem_lines,
            ));
        }
        let ci = crate::text::find_char_range(&hv, pos, line_end, ':');
        proof {
            assert(crate::text::find_from(line, ':', 0) + pos == ci);
        }
        if ci < line_end {
            let (ka, kb) = crate::text::trim_range(&hv, pos, ci);
            let (va, vb) = crate::text::trim_range(&hv, ci + 1, line_end);
            proof {
                assert(line.subrange(0, ci - pos) =~= hv@.subrange(pos as int, ci as int));
                assert(line.subrange(ci - pos + 1, line.len() as int) =~= hv@.subrange(
                    ci as int + 1,
                    line_end as int,
                ));
            }
            let ghost key = trim_spec(line.subrange(0, ci - pos));
            let ghost value = trim_spec(line.subrange(ci - pos + 1, line.len() as int));
            proof {
                assert(key == hv@.subrange(ka as int, kb as int));
                assert(value == hv@.subrange(va as int, vb as int));
                assert(value_ok(value)) by {
                    if vb > va {
                        crate::text::lemma_trim_noop(hv@.subrange(va as int, vb as int));
                    } else {
                        crate::text::lemma_trim_noop(hv@.subrange(va as int, vb as int));
                    }
                    assert(forall|i: int|
                        0 <= i < value.len() ==> value[i] == hv@[va + i] && #[trigger] value[i]
                            != '\n');
                    assert(no_close_mark(value)) by {
                        assert(forall|i: int|
                            0 <= i && i + 2 < value.len() ==> value[i] == hv@[va + i]
                                && #[trigger] value[i + 1] == hv@[va + i + 1] && value[i + 2]
                                == hv@[va + i + 2]);
                    }
                }
            }
            let is_id = crate::text::range_eq_str(&hv, ka, kb, "tagwiki-page-id");
            let is_cr = crate::text::range_eq_str(&hv, ka, kb, "tagwiki-creation-time");
            let is_mo = crate::text::range_eq_str(&hv, ka, kb, "tagwiki-modification-time");
            if is_id {
                id_s = Some(crate::text::string_from_range(&hv, va, vb));
            } else if is_cr {
                cr_s = Some(crate::text::string_from_range(&hv, va, vb));
            } else if is_mo {
                mo_s = Some(crate::text::string_from_range(&hv, va, vb));
            } else {
                assert(line_unrecognized(line));
                push_other_line(&mut other_s, &hv, pos, line_end);
                proof {
                    assert(other_s@ =~= cur.other + line + seq!['\n']);
                }
            }
            proof {
                assert(RawHeaders {
                    id: opt_view(id_s),
                    creation: opt_view(cr_s),
                    modification: opt_view(mo_s),
                    other: other_s@,
                } == header_step(cur, line));
            }
        } else {
            assert(line_unrecognized(line));
            push_other_line(&mut other_s, &hv, pos, line_end);
            proof {
                assert(other_s@ =~= cur.other + line + seq!['\n']);
                assert(RawHeaders {
                    id: opt_view(id_s),
                    creation: opt_view(cr_s),
                    modification: opt_view(mo_s),
                    other: other_s@,
                } == header_step(cur, line));
            }
        }
        if nl < hv.len() {
            pos = nl + 1;
        } else {
            pos = nl;
        }
    }
    proof {
        assert(hv@.subrange(pos as int, hv@.len() as int) =~= Seq::<char>::empty());
        assert(lines_of(Seq::<char>::empty()) =~= Seq::<Seq<char>>::empty());
        assert(full == RawHeaders {
            id: opt_view(id_s),
            creation: opt_view(cr_s),
            modification: opt_view(mo_s),
            other: other_s@,
        });
    }
    let id = match id_s {
        Some(x) => {
            if x.as_str().unicode_len() > 0 {
                x
            } else {
                content_id(source)
            }
        },
        None => content_id(source),
    };
    proof {
        if id@.len() == 32 {
        }
        assert(id_ok(id@)) by {
            if full.id matches Some(v) && v.len() > 0 {
            } else {
                crate::page::hash::lemma_hex_len(
                    crate::page::hash::blake2b_of(
                        vstd::string::StringSliceAdditionalSpecFns::spec_bytes(source),
                    ).take(16),
                );
                lemma_alnum_id_ok(id@);
            }
        }
    }
    let creation_time = match cr_s {
        Some(x) => match normalize_rfc3339(x.as_str()) {
            Some(t) => t,
            None => now_rfc3339(),
        },
        None => now_rfc3339(),
    };
    let modification_time = match mo_s {
        Some(x) => match normalize_rfc3339(x.as_str()) {
            Some(t) => t,
            None => now_rfc3339(),
        },
        None => now_rfc3339(),
    };
    Headers { id, creation_time, modification_time, other: other_s }
}

impl Parsed {
    /// Parses a full raw source into a page: header fields with their
    /// defaults, and HTML, tags and title recomputed from the body.
    pub fn from_full_source(source: Source) -> (r: Parsed)
        ensures
            r.wf(),
            parse_rel(source.0@, r@),
    {
        proof {
            lemma_split_header_no_close(source.0@);
        }
        let (header_str, body_str) = split_headers_and_body(&source);
        let body = String::from_str(body_str);
        let hv = crate::text::chars_of(header_str);
        let (a, b) = crate::text::trim_range(&hv, 0, hv.len());
        let trimmed = crate::text::string_from_range(&hv, a, b);
        proof {
            assert(hv@.subrange(0, hv@.len() as int) =~= hv@);
            assert(trimmed@ == trim_spec(split_source(source.0@).header));
            lemma_no_close_trim(header_str@);
        }
        let headers = parse_header_fields(trimmed.as_str(), source.0.as_str());
        from_headers_and_body(headers, body)
    }
}

/// The text of one recognized header line.
pub open spec fn header_line(key: Seq<char>, value: Seq<char>) -> Seq<char> {
    key + seq![':', ' '] + value
}

/// The inner text of a serialized header block, as the split sees it.
pub open spec fn header_inner(h: HeadersView) -> Seq<char> {
    seq!['\n'] + header_line(id_key(), h.id) + seq!['\n'] + header_line(
        creation_key(),
        h.creation,
    ) + seq!['\n'] + header_line(modification_key(), h.modification) + seq!['\n'] + h.other
}

/// The concrete shape of the three key names: their length, and that they
/// hold no colon, no whitespace, no newline and no delimiter characters.
proof fn lemma_key_shapes()
    ensures
        id_key().len() == 15,
        creation_key().len() == 21,
        modification_key().len() == 25,
        forall|j: int|
            0 <= j < id_key().len() ==> #[trigger] id_key()[j] != ':' && id_key()[j] != '>'
                && id_key()[j] != '\n' && !is_space_char(id_key()[j]),
        forall|j: int|
            0 <= j < creation_key().len() ==> #[trigger] creation_key()[j] != ':'
                && creation_key()[j] != '>' && creation_key()[j] != '\n' && !is_space_char(
                creation_key()[j],
            ),
        forall|j: int|
            0 <= j < modification_key().len() ==> #[trigger] modification_key()[j] != ':'
                && modification_key()[j] != '>' && modification_key()[j] != '\n'
                && !is_space_char(modification_key()[j]),
{
}

/// What a well-formed value makes of its header line: no newline, non-space
/// ends around the key, no delimiter, and the first colon right after the
/// key.
proof fn lemma_header_line_shape(key: Seq<char>, value: Seq<char>)
    requires
        key.len() > 0,
        forall|j: int|
            0 <= j < key.len() ==> #[trigger] key[j] != ':' && key[j] != '>' && key[j] != '\n'
                && !is_space_char(key[j]),
        value.len() > 0,
        trim_spec(value) == value,
        forall|j: int| 0 <= j < value.len() ==> value[j] != '\n',
        no_close_mark(value),
    ensures
        ({
            let l = header_line(key, value);
            &&& l.len() == key.len() + 2 + value.len()
            &&& forall|j: int| 0 <= j < l.len() ==> l[j] != '\n'
            &&& !is_space_char(l[0])
            &&& !is_space_char(l[l.len() - 1])
            &&& l[l.len() - 1] != '\r'
            &&& no_close_mark(l)
            &&& crate::text::find_from(l, ':', 0) == key.len()
            &&& l.subrange(0, key.len() as int) == key
            &&& trim_spec(l.subrange(key.len() as int + 1, l.len() as int)) == value
        }),
{
    let l = header_line(key, value);
    crate::text::lemma_trim_self_ends(value);
    assert(l[l.len() - 1] == value[value.len() - 1]);
    crate::text::lemma_find_from_unique(l, ':', 0, key.len());
    assert(l.subrange(0, key.len() as int) =~= key);
    let v1 = l.subrange(key.len() as int + 1, l.len() as int);
    assert(v1 =~= seq![' '] + value);
    assert(trim_spec(v1) == value) by {
        crate::text::lemma_trim_end_range(v1, v1.len());
        assert(crate::text::trim_end_spec(v1) =~= v1);
        crate::text::lemma_trim_start_range(v1, 1);
        assert(crate::text::trim_start_spec(v1) =~= value);
    }
    assert(no_close_mark(l)) by {
        assert forall|i: int|
            0 <= i && i + 2 < l.len() implies !(l[i] == '-' && #[trigger] l[i + 1] == '-' && l[i
            + 2] == '>') by {
            if l[i] == '-' && l[i + 1] == '-' && l[i + 2] == '>' {
                let n = key.len() as int;
                if i + 2 < n {
                    assert(l[i + 2] == key[i + 2]);
                } else if i + 2 == n {
                    assert(l[i + 2] == ':');
                } else if i + 2 == n + 1 {
                    assert(l[i + 2] == ' ');
                } else if i >= n + 2 {
                    let k2 = i - n - 2;
                    assert(value[k2] == '-');
                    assert(value[k2 + 1] == '-');
                    assert(value[k2 + 2] == '>');
                } else if i == n {
                    assert(l[i] == ':');
                } else {
                    assert(i == n + 1);
                    assert(l[i] == ' ');
                }
            }
        }
    }
}

/// A canonical timestamp makes a usable header value: single-line, trimmed,
/// delimiter-free.
proof fn lemma_ts_value_ok(v: Seq<char>)
    requires
        crate::util::ts_chars_ok(v),
    ensures
        v.len() > 0,
        trim_spec(v) == v,
        forall|j: int| 0 <= j < v.len() ==> v[j] != '\n',
        no_close_mark(v),
        !is_space_char(v[v.len() - 1]),
{
    assert(forall|j: int| 0 <= j < v.len() ==> crate::util::is_ts_char(#[trigger] v[j]));
    crate::text::lemma_trim_noop(v);
}

/// Splitting a serialized page recovers the body exactly, and the header
/// block's verbatim inner text.
#[verifier::rlimit(100)]
#[verifier::spinoff_prover]
proof fn lemma_split_serialized(h: HeadersView, body: Seq<char>)
    requires
        wf_headers(h),
    ensures
        split_source(page_source_of(h, body)).header == header_inner(h),
        split_source(page_source_of(h, body)).body == body,
{
    lemma_key_shapes();
    lemma_ts_value_ok(h.creation);
    lemma_ts_value_ok(h.modification);
    let l1 = header_line(id_key(), h.id);
    let l2 = header_line(creation_key(), h.creation);
    let l3 = header_line(modification_key(), h.modification);
    lemma_header_line_shape(id_key(), h.id);
    lemma_header_line_shape(creation_key(), h.creation);
    lemma_header_line_shape(modification_key(), h.modification);
    let nl = seq!['\n'];
    let inner = header_inner(h);
    let o1 = nl + l1 + nl;
    let o2 = o1 + l2 + nl;
    let o3 = o2 + l3 + nl;
    assert(no_close_mark(nl));
    lemma_no_close_append_line(nl, l1);
    lemma_no_close_append_line(o1, l2);
    lemma_no_close_append_line(o2, l3);
    assert(inner =~= o3 + h.other);
    assert(no_close_mark(inner)) by {
        if h.other.len() == 0 {
            assert(inner =~= o3);
        } else {
            crate::text::lemma_no_close_concat_nl(o3, h.other, '\n');
        }
    }
    assert(inner[0] == '\n');
    assert(inner[inner.len() - 1] == '\n') by {
        if h.other.len() == 0 {
            assert(inner =~= o3);
        } else {
            assert(inner[inner.len() - 1] == h.other[h.other.len() - 1]);
        }
    }
    let s = page_source_of(h, body);
    let pre = seq!['<', '!', '-', '-', '-'];
    let close = seq!['-', '-', '>'];
    assert(s =~= pre + inner + close + body);
    let pp = 5 + inner.len() as int;
    assert(s.len() == pp + 3 + body.len());
    assert(s[0] == '<' && s[1] == '!' && s[2] == '-' && s[3] == '-' && s[4] == '-');
    assert(s[5] == '\n');
    assert forall|j: int| 5 <= j < pp implies s[j] == inner[j - 5] by {}
    assert(s[pp] == '-' && s[pp + 1] == '-' && s[pp + 2] == '>');
    crate::page::grammar::lemma_scan_while_unique(s, 0, |c: char| is_space_char(c), 0);
    crate::page::grammar::lemma_scan_while_unique(s, 2, |c: char| c == '-', 5);
    // the one closing delimiter is ours
    assert forall|j: nat| 5 <= j < pp implies !crate::page::grammar::close_at(s, j) by {
        if crate::page::grammar::close_at(s, j) {
            let e = crate::page::grammar::dash_end(s, j);
            crate::page::grammar::lemma_scan_while(s, j, |c: char| c == '-');
            assert(s[pp - 1] == inner[inner.len() - 1]);
            assert(s[pp - 1] == '\n');
            assert(j < pp - 1) by {
                if j == pp - 1 {
                    assert(s[j as int] == '\n');
                }
            }
            assert(e <= pp - 1) by {
                if e > pp - 1 {
                    assert(s[pp - 1] == '-');
                }
            }
            assert(e >= j + 2);
            let k2 = e - 2 - 5;
            assert(inner[k2 as int] == s[e - 2] && s[e - 2] == '-');
            assert(inner[k2 as int + 1] == s[e - 1] && s[e - 1] == '-');
            assert(inner[k2 as int + 2] == s[e as int] && s[e as int] == '>');
        }
    }
    assert(crate::page::grammar::close_at(s, pp as nat)) by {
        crate::page::grammar::lemma_scan_while_unique(
            s,
            pp as nat,
            |c: char| c == '-',
            (pp + 2) as nat,
        );
    }
    crate::page::grammar::lemma_find_close_unique(s, 5, pp as nat);
    crate::page::grammar::lemma_scan_while_unique(
        s,
        pp as nat,
        |c: char| c == '-',
        (pp + 2) as nat,
    );
    assert(split_source(s).header =~= inner);
    assert(split_source(s).body =~= body);
}

/// Folding pass-through lines moves them to `other` verbatim, newline
/// restored, and touches nothing else.
proof fn lemma_fold_unrecognized(st: RawHeaders, ls: Seq<Seq<char>>)
    requires
        forall|i: int| 0 <= i < ls.len() ==> line_unrecognized(#[trigger] ls[i]),
    ensures
        header_fold(st, ls) == (RawHeaders {
            id: st.id,
            creation: st.creation,
            modification: st.modification,
            other: st.other + crate::text::rebuild_lines(ls),
        }),
    decreases ls.len(),
{
    if ls.len() == 0 {
        assert(st.other + crate::text::rebuild_lines(ls) =~= st.other);
        assert(header_fold(st, ls) == st);
        assert(st == RawHeaders {
            id: st.id,
            creation: st.creation,
            modification: st.modification,
            other: st.other + crate::text::rebuild_lines(ls),
        });
    } else {
        let st1 = header_step(st, ls[0]);
        assert(st1.other == st.other + ls[0] + seq!['\n']);
        lemma_fold_unrecognized(st1, ls.drop_first());
        assert(st.other + ls[0] + seq!['\n'] + crate::text::rebuild_lines(ls.drop_first())
            =~= st.other + crate::text::rebuild_lines(ls));
    }
}

/// Folding the lines of a serialized header block recovers each field.
#[verifier::rlimit(100)]
#[verifier::spinoff_prover]
proof fn lemma_fold_serialized(h: HeadersView)
    requires
        wf_headers(h),
        other_exact(h.other),
    ensures
        ({
            let raw = header_fold(
                crate::page::grammar::empty_raw(),
                lines_of(trim_spec(header_inner(h))),
            );
            &&& raw.id == Some(h.id)
            &&& raw.creation == Some(h.creation)
            &&& raw.modification == Some(h.modification)
            &&& raw.other == h.other
        }),
{
    lemma_key_shapes();
    lemma_ts_value_ok(h.creation);
    lemma_ts_value_ok(h.modification);
    let l1 = header_line(id_key(), h.id);
    let l2 = header_line(creation_key(), h.creation);
    let l3 = header_line(modification_key(), h.modification);
    lemma_header_line_shape(id_key(), h.id);
    lemma_header_line_shape(creation_key(), h.creation);
    lemma_header_line_shape(modification_key(), h.modification);
    let nl = seq!['\n'];
    let inner = header_inner(h);
    // trimming drops exactly the leading and the final newline
    assert(inner[inner.len() - 1] == '\n') by {
        if h.other.len() > 0 {
            assert(inner[inner.len() - 1] == h.other[h.other.len() - 1]);
        }
    }
    assert(!is_space_char(inner[inner.len() - 2])) by {
        if h.other.len() == 0 {
            assert(inner[inner.len() - 2] == l3[l3.len() - 1]);
        } else {
            assert(inner[inner.len() - 2] == h.other[h.other.len() - 2]);
        }
    }
    crate::text::lemma_trim_end_range(inner, (inner.len() - 1) as nat);
    let te = inner.subrange(0, inner.len() - 1);
    assert(te[0] == '\n');
    assert(!is_space_char(te[1])) by {
        assert(te[1] == l1[0]);
    }
    crate::text::lemma_trim_start_range(te, 1);
    let tt = trim_spec(inner);
    assert(tt =~= inner.subrange(1, inner.len() - 1));
    // the trimmed text, line by line
    assert(crate::text::strip_cr(l1) == l1);
    assert(crate::text::strip_cr(l2) == l2);
    assert(crate::text::strip_cr(l3) == l3);
    let other_lines = lines_of(h.other);
    if h.other.len() == 0 {
        assert(tt =~= l1 + nl + (l2 + nl + l3));
        crate::text::lemma_lines_step(l1, l2 + nl + l3);
        crate::text::lemma_lines_step(l2, l3);
        crate::text::lemma_lines_single(l3);
        assert(other_lines =~= Seq::<Seq<char>>::empty());
        assert(lines_of(tt) =~= seq![l1, l2, l3] + other_lines);
    } else {
        let tail = h.other.drop_last();
        assert(tt =~= l1 + nl + (l2 + nl + (l3 + nl + tail)));
        crate::text::lemma_lines_step(l1, l2 + nl + (l3 + nl + tail));
        crate::text::lemma_lines_step(l2, l3 + nl + tail);
        crate::text::lemma_lines_step(l3, tail);
        assert(h.other.len() >= 2);
        assert(h.other[h.other.len() - 1] == '\n');
        assert(!is_space_char(h.other[h.other.len() - 2]));
        crate::text::lemma_lines_drop_last_newline(h.other);
        assert(lines_of(tail) =~= other_lines);
        assert(lines_of(tt) =~= seq![l1, l2, l3] + other_lines);
    }
    // fold the three recognized lines
    let st0 = crate::page::grammar::empty_raw();
    let st1 = header_step(st0, l1);
    assert(st1.id == Some(h.id) && st1.creation is None && st1.modification is None && st1.other
        =~= Seq::<char>::empty()) by {
        assert(trim_spec(l1.subrange(0, 15)) == id_key());
        assert(trim_spec(l1.subrange(16, l1.len() as int)) == h.id);
    }
    let st2 = header_step(st1, l2);
    assert(st2.id == Some(h.id) && st2.creation == Some(h.creation) && st2.modification is None
        && st2.other =~= Seq::<char>::empty()) by {
        assert(trim_spec(l2.subrange(0, 21)) == creation_key());
        assert(creation_key() != id_key());
        assert(trim_spec(l2.subrange(22, l2.len() as int)) == h.creation);
    }
    let st3 = header_step(st2, l3);
    assert(st3.id == Some(h.id) && st3.creation == Some(h.creation) && st3.modification == Some(
        h.modification,
    ) && st3.other =~= Seq::<char>::empty()) by {
        assert(trim_spec(l3.subrange(0, 25)) == modification_key());
        assert(modification_key() != id_key());
        assert(modification_key() != creation_key());
        assert(trim_spec(l3.subrange(26, l3.len() as int)) == h.modification);
    }
    // and pass the rest through
    let ls = lines_of(tt);
    assert(ls[0] == l1 && ls[1] == l2 && ls[2] == l3);
    assert(ls.drop_first() =~= seq![l2, l3] + other_lines);
    assert(ls.drop_first().drop_first() =~= seq![l3] + other_lines);
    assert(ls.drop_first().drop_first().drop_first() =~= other_lines);
    assert(header_fold(st0, ls) == header_fold(st1, ls.drop_first()));
    assert(header_fold(st1, ls.drop_first()) == header_fold(st2, ls.drop_first().drop_first()));
    assert(header_fold(st2, ls.drop_first().drop_first()) == header_fold(
        st3,
        ls.drop_first().drop_first().drop_first(),
    ));
    assert(header_fold(st0, ls) == header_fold(st3, other_lines));
    lemma_fold_unrecognized(st3, other_lines);
    crate::text::lemma_rebuild_lines(h.other);
    assert(st3.other + crate::text::rebuild_lines(lines_of(h.other)) =~= h.other);
}

/// Round trip: parsing a serialized page recovers the body exactly and
/// every header field.  The one exclusion is a pass-through block whose
/// last line is blank or ends in whitespace: trimming the reparsed header
/// text would lose that whitespace, so `other_exact` rules it out.
pub proof fn lemma_parse_serialize_round_trip(h: HeadersView, body: Seq<char>, pv: PageView)
    requires
        wf_headers(h),
        other_exact(h.other),
        parse_rel(page_source_of(h, body), pv),
    ensures
        pv.headers == h,
        pv.body == body,
        pv.source == page_source_of(h, body),
        pv.tags == tags_of(body),
        pv.title == title_of(body),
{
    let s = page_source_of(h, body);
    lemma_split_serialized(h, body);
    lemma_fold_serialized(h);
    assert(headers_of_source(s).id == Some(h.id));
    assert(h.id.len() > 0);
    assert(rfc3339_norm(h.creation) == Some(h.creation));
    assert(rfc3339_norm(h.modification) == Some(h.modification));
    assert(pv.headers == HeadersView {
        id: h.id,
        creation: h.creation,
        modification: h.modification,
        other: h.other,
    });
    assert(pv.headers == h);
}

/// Parsing is deterministic: two parses of the same raw source agree on the
/// page's id, tags and title (the timestamps fall back to the clock when the
/// header carries none, and only then may differ).
pub proof fn lemma_parse_deterministic(s: Seq<char>, p1: PageView, p2: PageView)
    requires
        parse_rel(s, p1),
        parse_rel(s, p2),
    ensures
        p1.headers.id == p2.headers.id,
        p1.tags == p2.tags,
        p1.title == p2.title,
        p1.body == p2.body,
        p1.html == p2.html,
        p1.headers.other == p2.headers.other,
{
}

/// A page with no declared id is content-addressed: its id is a function of
/// the raw source text alone, so unchanged content keeps its identity across
/// parses.
pub proof fn lemma_content_addressed_id(s: Seq<char>, pv: PageView)
    requires
        parse_rel(s, pv),
        headers_of_source(s).id is None,
    ensures
        pv.headers.id == content_id_of(s),
{
}

} // verus!
