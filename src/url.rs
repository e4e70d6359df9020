//! A URL string and the parts that parsing will fill in.
use vstd::prelude::*;

verus! {

/// `pat` occurs in `s` starting at `i`.
pub open spec fn occurs_at(s: Seq<char>, pat: Seq<char>, i: int) -> bool {
    0 <= i && i + pat.len() <= s.len() && s.subrange(i, i + pat.len()) == pat
}

/// `pat` occurs somewhere in `s`.
pub open spec fn occurs_in(s: Seq<char>, pat: Seq<char>) -> bool {
    exists|i: int| occurs_at(s, pat, i)
}

/// Whether `pat` occurs in `s`.
pub fn contains(s: &str, pat: &str) -> (r: bool)
    ensures
        r == occurs_in(s@, pat@),
{
    let n = s.unicode_len();
    let m = pat.unicode_len();
    if m > n {
        assert forall|i: int| !occurs_at(s@, pat@, i) by {}
        return false;
    }
    let mut i: usize = 0;
    while i <= n - m
        invariant
            n == s@.len(),
            m == pat@.len(),
            m <= n,
            i <= n - m + 1,
            forall|k: int| 0 <= k < i ==> !occurs_at(s@, pat@, k),
        decreases n - m + 1 - i,
    {
        let mut j: usize = 0;
        let mut same = true;
        while j < m
            invariant
                n == s@.len(),
                m == pat@.len(),
                i + m <= n,
                j <= m,
                same == forall|k: int| 0 <= k < j ==> s@[i + k] == pat@[k],
            decreases m - j,
        {
            if s.get_char(i + j) != pat.get_char(j) {
                same = false;
            }
            j = j + 1;
        }
        if same {
            assert(s@.subrange(i as int, i + m) =~= pat@);
            assert(occurs_at(s@, pat@, i as int));
            return true;
        }
        assert(!occurs_at(s@, pat@, i as int)) by {
            if s@.subrange(i as int, i + m) == pat@ {
                assert forall|k: int| 0 <= k < m implies s@[i + k] == pat@[k] by {
                    assert(s@.subrange(i as int, i + m)[k] == s@[i + k]);
                }
            }
        }
        i = i + 1;
    }
    assert forall|k: int| !occurs_at(s@, pat@, k) by {
        if 0 <= k && k + m <= n {
            assert(k < i);
        }
    }
    false
}

/// A URL and the parts that parsing fills in.
#[derive(Debug, Clone)]
pub struct Url {
    url: String,
    host: String,
    port: String,
    path: String,
    searchpart: String,
}

impl Url {
    /// The URL text.
    pub closed spec fn spec_url(&self) -> Seq<char> {
        self.url@
    }

    /// Host, port, path and search part are all empty.
    pub closed spec fn parts_empty(&self) -> bool {
        &&& self.host@.len() == 0
        &&& self.port@.len() == 0
        &&& self.path@.len() == 0
        &&& self.searchpart@.len() == 0
    }

    /// A URL holding `url`, with no parts filled in.
    pub fn new(url: String) -> (u: Url)
        ensures
            u.spec_url() == url@,
            u.parts_empty(),
    {
        Url {
            url,
            host: String::new(),
            port: String::new(),
            path: String::new(),
            searchpart: String::new(),
        }
    }

    /// Refuses a URL of the `http://` scheme. Parsing of other URLs is not
    /// provided, so they are not accepted.
    pub fn parse(&mut self) -> (r: Result<Url, String>)
        requires
            occurs_in(old(self).spec_url(), "http://"@),
        ensures
            *final(self) == *old(self),
            r matches Err(e) && e@ == "Only HTTP scheme is supported"@,
    {
        let http = self.is_http();
        assert(http);
        Err(String::from_str("Only HTTP scheme is supported"))
    }

    /// Whether the URL contains `http://`.
    fn is_http(&mut self) -> (r: bool)
        ensures
            *final(self) == *old(self),
            r == occurs_in(old(self).spec_url(), "http://"@),
    {
        contains(self.url.as_str(), "http://")
    }

    /// The URL text.
    pub fn url(&self) -> (s: &String)
        ensures
            s@ == self.spec_url(),
    {
        &self.url
    }
}

} // verus!
