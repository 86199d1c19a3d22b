//! Helpers for the request-handling layer.

use vstd::prelude::*;

verus! {

/// Drops every carriage return, turning submitted CRLF text into the plain
/// newlines pages are stored with.
pub fn get_rid_of_windows_newlines(s: String) -> (r: String)
    ensures
        r@ == s@.filter(|c: char| c != '\r'),
{
    let v = crate::text::chars_of(s.as_str());
    let mut r = String::new();
    let mut i: usize = 0;
    proof {
        assert(s@.take(0int).filter(|c: char| c != '\r') =~= Seq::<char>::empty());
    }
    while i < v.len()
        invariant
            v@ == s@,
            i <= v@.len(),
            r@ == s@.take(i as int).filter(|c: char| c != '\r'),
        decreases v@.len() - i,
    {
        let ghost pre = s@.take(i as int);
        let c = v[i];
        if c != '\r' {
            crate::text::push_char(&mut r, c);
        }
        i += 1;
        proof {
            assert(s@.take(i as int) =~= pre.push(c));
            pre.lemma_filter_push(c, |c2: char| c2 != '\r');
            assert(r@ =~= s@.take(i as int).filter(|c2: char| c2 != '\r'));
        }
    }
    proof {
        assert(s@.take(s@.len() as int) =~= s@);
    }
    r
}

/// A submitted page form: the new body, the page id where one is known, and
/// the method override button forms send.
#[derive(Debug)]
pub struct PostForm {
    pub body: Option<String>,
    pub id: Option<String>,
    pub _method: Option<String>,
}

/// What reading a form can find wrong.
#[derive(Debug)]
pub enum FormError {
    MissingBody,
}

impl PostForm {
    /// The submitted body, or the error shown when a form arrives without
    /// one.
    pub fn get_body(&self) -> (r: Result<&str, FormError>)
        ensures
            match r {
                Ok(b) => self.body matches Some(s) && b@ == s@,
                Err(e) => self.body is None && e is MissingBody,
            },
    {
        match &self.body {
            Some(b) => Ok(b.as_str()),
            None => Err(FormError::MissingBody),
        }
    }
}

} // verus!
