//! The verified bookkeeping of the filesystem store.
//!
//! The filesystem store keeps every page in one file under a root directory.
//! The catalog here owns what can be reasoned about without touching a disk:
//! which relative path each id lives at, the parsed page behind each path,
//! slug derivation with collision suffixes, and the shape of the temporary
//! paths that crash-safe writes go through.  The embedding program performs
//! the reads, writes and renames around it, in plan/commit order: the
//! catalog changes only after the filesystem operation has succeeded.

use vstd::prelude::*;

use crate::page::PageView;
use crate::page::Parsed;
use crate::strmap::StrMap;
use crate::text::dec_str;
use crate::text::is_ascii_alnum;
use crate::text::usize_to_string;
use crate::util::random_string;
use vstd::string::StrSliceExecFns;
use vstd::string::StringExecFns;

verus! {

/// What `char::is_alphanumeric` holds of a character.  The answer depends on
/// the character alone.
pub uninterp spec fn is_unicode_alphanumeric(c: char) -> bool;

/// Relies on `char::is_alphanumeric`: Unicode letters, digits and number
/// characters; among the ASCII characters, exactly the letters and digits.
#[verifier::external_body]
fn char_alphanumeric(c: char) -> (r: bool)
    ensures
        r == is_unicode_alphanumeric(c),
        (c as u32) < 128 ==> r == is_ascii_alnum(c),
{
    c.is_alphanumeric()
}

/// The page file extension.
pub open spec fn md_ext() -> Seq<char> {
    seq!['.', 'm', 'd']
}

/// Whether a path carries the page file extension.
pub open spec fn ends_md(p: Seq<char>) -> bool {
    p.len() >= 3 && p.subrange(p.len() - 3, p.len() as int) == md_ext()
}

/// The slug of a title from position `i` on, given whether an alphanumeric
/// character came just before: alphanumeric runs kept, every other run
/// collapsed to one `-`.
pub open spec fn slug_core(title: Seq<char>, i: int, last_alnum: bool) -> Seq<char>
    decreases title.len() - i,
{
    if i < 0 || i >= title.len() {
        Seq::empty()
    } else {
        let c = title[i];
        if is_unicode_alphanumeric(c) {
            seq![c] + slug_core(title, i + 1, true)
        } else if last_alnum {
            seq!['-'] + slug_core(title, i + 1, false)
        } else {
            slug_core(title, i + 1, false)
        }
    }
}

/// The slug of a title: collapsed as above, with no leading or trailing
/// separator.
pub open spec fn slug_of(title: Seq<char>) -> Seq<char> {
    let s = slug_core(title, 0, false);
    if s.len() > 0 && s[s.len() - 1] == '-' {
        s.drop_last()
    } else {
        s
    }
}

/// The `k`-th candidate path for a slug: the slug itself, then numbered
/// variants.
pub open spec fn candidate_path(slug: Seq<char>, k: nat) -> Seq<char> {
    if k == 0 {
        slug + md_ext()
    } else {
        slug + seq!['-'] + dec_str(k) + md_ext()
    }
}

/// Distinct indexes give distinct candidate paths.
pub proof fn lemma_candidate_injective(slug: Seq<char>, j: nat, k: nat)
    requires
        j != k,
    ensures
        candidate_path(slug, j) != candidate_path(slug, k),
{
    crate::text::lemma_dec_str_val(j);
    crate::text::lemma_dec_str_val(k);
    let a = candidate_path(slug, j);
    let b = candidate_path(slug, k);
    if j == 0 || k == 0 {
        assert(a.len() != b.len());
    } else if dec_str(j).len() != dec_str(k).len() {
        assert(a.len() != b.len());
    } else {
        if a == b {
            let n = slug.len() as int;
            let m = dec_str(j).len() as int;
            assert(dec_str(j) =~= a.subrange(n + 1, n + 1 + m));
            assert(dec_str(k) =~= b.subrange(n + 1, n + 1 + m));
            assert(dec_str(j) == dec_str(k));
            assert(j == k);
        }
    }
}

/// The in-memory side of the filesystem store: where each id lives, and the
/// page behind each path.
pub struct FsCatalog {
    id_to_path: StrMap<String>,
    path_to_page: StrMap<Parsed>,
}

impl FsCatalog {
    /// The id-to-path map, as path text.
    pub closed spec fn paths(&self) -> Map<Seq<char>, Seq<char>> {
        self.id_to_path@.map_values(|p: String| p@)
    }

    /// Every path a page file sits at.
    pub closed spec fn path_set(&self) -> Set<Seq<char>> {
        self.path_to_page@.dom()
    }

    /// The pages held, by id.
    pub closed spec fn pages(&self) -> Map<Seq<char>, PageView> {
        Map::new(
            |id: Seq<char>| self.paths().contains_key(id),
            |id: Seq<char>| self.path_to_page@[self.paths()[id]]@,
        )
    }

    /// The catalog invariant: each id's path holds a well-formed page filed
    /// under that id, and every known path carries the page extension.
    pub closed spec fn wf(&self) -> bool {
        &&& self.id_to_path.wf()
        &&& self.path_to_page.wf()
        &&& forall|id: Seq<char>|
            #[trigger] self.paths().contains_key(id) ==> self.path_set().contains(self.paths()[id])
                && self.path_to_page@[self.paths()[id]].wf()
                && self.path_to_page@[self.paths()[id]]@.headers.id == id
        &&& forall|p: Seq<char>| #[trigger] self.path_set().contains(p) ==> ends_md(p)
    }

    /// Two ids never share a path: the page there is filed under both.
    pub proof fn lemma_paths_injective(&self, id1: Seq<char>, id2: Seq<char>)
        requires
            self.wf(),
            self.paths().contains_key(id1),
            self.paths().contains_key(id2),
            id1 != id2,
        ensures
            self.paths()[id1] != self.paths()[id2],
    {
    }

    pub fn new() -> (r: Self)
        ensures
            r.wf(),
            r.pages() =~= Map::<Seq<char>, PageView>::empty(),
            r.path_set() =~= Set::<Seq<char>>::empty(),
    {
        let r = FsCatalog { id_to_path: StrMap::new(), path_to_page: StrMap::new() };
        proof {
            assert(r.pages() =~= Map::<Seq<char>, PageView>::empty());
            assert(r.path_set() =~= Set::<Seq<char>>::empty());
        }
        r
    }

    /// Whether some page file already sits at `p`.
    pub fn has_path(&self, p: &String) -> (r: bool)
        requires
            self.wf(),
        ensures
            r == self.path_set().contains(p@),
    {
        self.path_to_page.contains(p)
    }

    /// Files a page read from disk at startup.
    pub fn record_loaded(&mut self, rel_path: String, page: Parsed)
        requires
            old(self).wf(),
            page.wf(),
            ends_md(rel_path@),
            !old(self).path_set().contains(rel_path@),
        ensures
            final(self).wf(),
            final(self).pages() =~= old(self).pages().insert(page@.headers.id, page@),
            final(self).path_set() =~= old(self).path_set().insert(rel_path@),
            final(self).paths() =~= old(self).paths().insert(page@.headers.id, rel_path@),
    {
        let id = String::from_str(page.id());
        self.id_to_path.insert(id, rel_path.clone());
        self.path_to_page.insert(rel_path, page);
        proof {
            assert(self.paths() =~= old(self).paths().insert(
                self.path_to_page@[rel_path@]@.headers.id,
                rel_path@,
            ));
            assert(self.pages() =~= old(self).pages().insert(
                self.path_to_page@[rel_path@]@.headers.id,
                self.path_to_page@[rel_path@]@,
            ));
        }
    }

    /// The page under `id`, if any.
    pub fn get(&self, id: &String) -> (r: Option<Parsed>)
        requires
            self.wf(),
        ensures
            match r {
                Some(p) => self.pages().contains_key(id@) && p@ == self.pages()[id@] && p.wf(),
                None => !self.pages().contains_key(id@),
            },
    {
        match self.id_to_path.get(id) {
            Some(path) => {
                match self.path_to_page.get(path) {
                    Some(p) => Some(p.clone()),
                    None => None,
                }
            },
            None => None,
        }
    }

    /// The path a put of `page` must write to: the page's existing file, or
    /// a fresh slug-derived one.
    pub fn plan_put(&self, page: &Parsed) -> (r: String)
        requires
            self.wf(),
        ensures
            ends_md(r@),
            self.pages().contains_key(page@.headers.id) ==> r@ == self.paths()[page@.headers.id],
            !self.pages().contains_key(page@.headers.id) ==> !self.path_set().contains(r@),
    {
        let id = String::from_str(page.id());
        match self.id_to_path.get(&id) {
            Some(path) => {
                let r = path.clone();
                proof {
                    assert(self.paths().contains_key(page@.headers.id));
                    assert(self.path_set().contains(self.paths()[page@.headers.id]));
                }
                r
            },
            None => self.title_to_new_rel_path(self.title_str(page)),
        }
    }

    fn title_str<'a>(&self, page: &'a Parsed) -> (r: &'a str)
        ensures
            r@ == page@.title,
    {
        page.title.as_str()
    }

    /// Files `page` at `rel_path` once its bytes are safely on disk.
    pub fn commit_put(&mut self, page: &Parsed, rel_path: String)
        requires
            old(self).wf(),
            page.wf(),
            ends_md(rel_path@),
            old(self).pages().contains_key(page@.headers.id) ==> rel_path@ == old(
                self,
            ).paths()[page@.headers.id],
            !old(self).pages().contains_key(page@.headers.id) ==> !old(self).path_set().contains(
                rel_path@,
            ),
        ensures
            final(self).wf(),
            final(self).pages() =~= old(self).pages().insert(page@.headers.id, page@),
            final(self).paths() =~= old(self).paths().insert(page@.headers.id, rel_path@),
            final(self).path_set() =~= old(self).path_set().insert(rel_path@),
    {
        let id = String::from_str(page.id());
        self.id_to_path.insert(id, rel_path.clone());
        self.path_to_page.insert(rel_path, page.clone());
        proof {
            assert forall|id2: Seq<char>| #[trigger] self.paths().contains_key(id2) implies self
                .path_set().contains(self.paths()[id2]) && self.path_to_page@[self.paths()[id2]].wf()
                && self.path_to_page@[self.paths()[id2]]@.headers.id == id2 by {
                if id2 != page@.headers.id {
                    assert(old(self).paths().contains_key(id2));
                    assert(self.paths()[id2] == old(self).paths()[id2]);
                    if old(self).pages().contains_key(page@.headers.id) {
                        if old(self).paths()[id2] == rel_path@ {
                            old(self).lemma_paths_injective(id2, page@.headers.id);
                        }
                    } else {
                        assert(old(self).path_set().contains(old(self).paths()[id2]));
                    }
                }
            }
            assert(self.pages() =~= old(self).pages().insert(page@.headers.id, page@));
        }
    }

    /// The path of the page under `id`, for the caller to unlink.
    pub fn plan_delete(&self, id: &String) -> (r: Option<String>)
        requires
            self.wf(),
        ensures
            match r {
                Some(p) => self.pages().contains_key(id@) && p@ == self.paths()[id@],
                None => !self.pages().contains_key(id@),
            },
    {
        match self.id_to_path.get(id) {
            Some(path) => Some(path.clone()),
            None => None,
        }
    }

    /// Forgets the page under `id` once its file is gone.
    pub fn commit_delete(&mut self, id: &String)
        requires
            old(self).wf(),
            old(self).pages().contains_key(id@),
        ensures
            final(self).wf(),
            final(self).pages() =~= old(self).pages().remove(id@),
            final(self).paths() =~= old(self).paths().remove(id@),
            final(self).path_set() =~= old(self).path_set().remove(old(self).paths()[id@]),
    {
        let path = self.id_to_path.remove(id);
        match path {
            Some(p) => {
                self.path_to_page.remove(&p);
                proof {
                    assert forall|id2: Seq<char>| #[trigger] self.paths().contains_key(id2) implies
                        self.path_set().contains(self.paths()[id2]) && self.path_to_page@[self
                        .paths()[id2]].wf() && self.path_to_page@[self.paths()[id2]]@.headers.id
                        == id2 by {
                        assert(id2 != id@);
                        assert(old(self).paths().contains_key(id2));
                        if old(self).paths()[id2] == p@ {
                            old(self).lemma_paths_injective(id2, id@);
                        }
                    }
                    assert(self.pages() =~= old(self).pages().remove(id@));
                }
            },
            None => {
                proof {
                    assert(false);
                }
            },
        }
    }

    /// A snapshot of the ids held, each exactly once.
    pub fn iter(&self) -> (r: Vec<String>)
        requires
            self.wf(),
        ensures
            r.deep_view().no_duplicates(),
            r.deep_view().to_set() =~= self.pages().dom(),
    {
        proof {
            self.id_to_path.lemma_entries();
            assert(self.pages().dom() =~= self.id_to_path@.dom());
        }
        self.id_to_path.keys_vec()
    }

    /// A fresh path for a new page: the title's slug, numbered past any
    /// collision, so that no two pages ever share a file.
    pub fn title_to_new_rel_path(&self, title: &str) -> (r: String)
        requires
            self.wf(),
        ensures
            ends_md(r@),
            !self.path_set().contains(r@),
            exists|k: nat|
                r@ == candidate_path(slug_of(title@), k) && forall|j: nat|
                    j < k ==> self.path_set().contains(#[trigger] candidate_path(
                        slug_of(title@),
                        j,
                    )),
    {
        let v = crate::text::chars_of(title);
        let mut out = String::new();
        let mut last_alnum: bool = false;
        let mut i: usize = 0;
        while i < v.len()
            invariant
                i <= v@.len(),
                v@ == title@,
                slug_core(title@, 0, false) =~= out@ + slug_core(title@, i as int, last_alnum),
            decreases v@.len() - i,
        {
            let c = v[i];
            if char_alphanumeric(c) {
                crate::text::push_char(&mut out, c);
                last_alnum = true;
            } else if last_alnum {
                crate::text::push_char(&mut out, '-');
                last_alnum = false;
            }
            i += 1;
            proof {
                assert(slug_core(title@, 0, false) =~= out@ + slug_core(
                    title@,
                    i as int,
                    last_alnum,
                ));
            }
        }
        proof {
            assert(slug_core(title@, i as int, last_alnum) =~= Seq::<char>::empty());
            assert(out@ =~= slug_core(title@, 0, false));
        }
        let n = out.as_str().unicode_len();
        let slug = if n > 0 && out.as_str().get_char(n - 1) == '-' {
            out.as_str().substring_char(0, n - 1)
        } else {
            out.as_str()
        };
        proof {
            assert(slug@ == slug_of(title@));
        }
        self.fresh_candidate(slug)
    }

    /// The first candidate path for `slug` that no page file sits at.
    fn fresh_candidate(&self, slug: &str) -> (r: String)
        requires
            self.wf(),
        ensures
            ends_md(r@),
            !self.path_set().contains(r@),
            exists|k: nat|
                r@ == candidate_path(slug@, k) && forall|j: nat|
                    j < k ==> self.path_set().contains(#[trigger] candidate_path(slug@, j)),
    {
        proof {
            self.path_to_page.lemma_entries();
        }
        let n = self.path_to_page.len();
        let mut k: usize = 0;
        loop
            invariant
                self.wf(),
                k <= n + 1,
                n == self.path_set().len(),
                self.path_set().finite(),
                forall|j: nat| j < k ==> self.path_set().contains(#[trigger] candidate_path(slug@, j)),
            decreases n + 1 - k,
        {
            let cand = make_candidate(slug, k);
            if !self.path_to_page.contains(&cand) {
                proof {
                    lemma_ends_md_candidate(slug@, k as nat);
                }
                return cand;
            }
            proof {
                lemma_candidates_bound(slug@, self.path_set(), (k + 1) as nat);
            }
            k += 1;
        }
    }
}

/// The `k`-th candidate path for `slug`, as text.
fn make_candidate(slug: &str, k: usize) -> (r: String)
    ensures
        r@ == candidate_path(slug@, k as nat),
{
    let mut r = String::from_str(slug);
    if k > 0 {
        crate::text::push_char(&mut r, '-');
        let num = usize_to_string(k);
        r.append(num.as_str());
    }
    r.append(".md");
    proof {
        reveal_strlit(".md");
        assert(".md"@ =~= md_ext());
        assert(r@ =~= candidate_path(slug@, k as nat));
    }
    r
}

/// A candidate path carries the page extension.
proof fn lemma_ends_md_candidate(slug: Seq<char>, k: nat)
    ensures
        ends_md(candidate_path(slug, k)),
{
    let c = candidate_path(slug, k);
    assert(c.subrange(c.len() - 3, c.len() as int) =~= md_ext());
}

/// If the first `k` candidates are all taken, the path set holds at least
/// `k` paths.
proof fn lemma_candidates_bound(slug: Seq<char>, taken: Set<Seq<char>>, k: nat)
    requires
        taken.finite(),
        forall|j: nat| j < k ==> taken.contains(#[trigger] candidate_path(slug, j)),
    ensures
        k <= taken.len(),
{
    let cs = Seq::<Seq<char>>::new(k, |j: int| candidate_path(slug, j as nat));
    assert(cs.no_duplicates()) by {
        assert forall|x: int, y: int| 0 <= x < y < k implies cs[x] != cs[y] by {
            lemma_candidate_injective(slug, x as nat, y as nat);
        }
    }
    cs.unique_seq_to_set();
    assert(cs.to_set().subset_of(taken)) by {
        assert forall|p: Seq<char>| cs.to_set().contains(p) implies taken.contains(p) by {
            let j = choose|j: int| 0 <= j < k && cs[j] == p;
            assert(candidate_path(slug, j as nat) == p);
        }
    }
    vstd::set_lib::lemma_len_subset(cs.to_set(), taken);
}

/// The temporary sibling a crash-safe write goes through: the final path
/// plus a random suffix.  Such a path never carries the page extension, so
/// an interrupted write can touch no page's file.
pub fn temp_path_for(rel_path: &str) -> (r: String)
    ensures
        r@.len() == rel_path@.len() + 13,
        r@.subrange(0, rel_path@.len() as int) == rel_path@,
        forall|p: Seq<char>| ends_md(p) ==> r@ != p,
{
    let mut r = String::from_str(rel_path);
    r.append(".tmp.");
    let suffix = random_string(8);
    r.append(suffix.as_str());
    proof {
        reveal_strlit(".tmp.");
        assert(r@.subrange(0, rel_path@.len() as int) =~= rel_path@);
        assert(is_ascii_alnum(r@[r@.len() - 3]));
        assert forall|p: Seq<char>| ends_md(p) implies r@ != p by {
            if r@ == p {
                assert(p[p.len() - 3] == md_ext()[0]);
            }
        }
    }
    r
}

} // verus!
