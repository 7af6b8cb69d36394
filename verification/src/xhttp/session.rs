//! Which sessions are known, and how requests for them are answered.
use crate::text;
use vstd::prelude::*;

verus! {

/// How long, in seconds, a session waits for its download, and a connection for its first.
pub const SESSION_TTL_SECS: u64 = 30;

/// What the server remembers of one connection.
#[verifier::ext_equal]
pub struct TableView {
    /// The sessions that requests have named.
    pub known: Set<Seq<char>>,
    /// Whether the download has been handed out.
    pub taken: bool,
}

/// How a request for a download is answered.
#[derive(Debug, Clone, Copy, PartialEq, Eq, Structural)]
pub enum Downlink {
    /// It gets the download.
    Granted,
    /// The download has been handed out before: 409.
    Conflict,
}

/// The sessions of one connection.
pub struct SessionTable {
    known: Vec<String>,
    taken: bool,
}

impl SessionTable {
    /// No session is listed twice.
    pub closed spec fn wf(&self) -> bool {
        text::texts(self.known@).no_duplicates()
    }

    pub closed spec fn state(&self) -> TableView {
        TableView { known: text::texts(self.known@).to_set(), taken: self.taken }
    }

    pub fn new() -> (r: Self)
        ensures
            r.wf(),
            r.state() == (TableView { known: Set::empty(), taken: false }),
    {
        let r = SessionTable { known: Vec::new(), taken: false };
        assert(text::texts(r.known@) =~= Seq::<Seq<char>>::empty());
        assert(r.state().known =~= Set::<Seq<char>>::empty());
        r
    }

    fn find(&self, sid: &str) -> (r: Option<usize>)
        ensures
            match r {
                Some(i) => i < self.known@.len() && text::texts(self.known@)[i as int] == sid@,
                None => !text::texts(self.known@).contains(sid@),
            },
    {
        let ghost all = text::texts(self.known@);
        let mut i: usize = 0;
        while i < self.known.len()
            invariant
                all == text::texts(self.known@),
                i <= self.known@.len(),
                forall|k: int| 0 <= k < i ==> all[k] != sid@,
            decreases self.known@.len() - i,
        {
            if text::same_text(self.known[i].as_str(), sid) {
                return Some(i);
            }
            i = i + 1;
        }
        None
    }

    /// Lists a session, and says whether it is new.
    fn remember(&mut self, sid: &str) -> (r: bool)
        requires
            old(self).wf(),
        ensures
            final(self).wf(),
            r == !old(self).state().known.contains(sid@),
            final(self).state() == (TableView {
                known: old(self).state().known.insert(sid@),
                ..old(self).state()
            }),
    {
        let ghost before = text::texts(self.known@);
        match self.find(sid) {
            Some(i) => {
                assert(before.to_set().contains(sid@)) by {
                    assert(before[i as int] == sid@);
                }
                assert(before.to_set().insert(sid@) =~= before.to_set());
                false
            },
            None => {
                self.known.push(sid.to_owned());
                proof {
                    let after = text::texts(self.known@);
                    assert(after =~= before.push(sid@));
                    assert(!before.to_set().contains(sid@));
                    assert forall|x: Seq<char>| after.to_set().contains(x)
                        == before.to_set().insert(sid@).contains(x) by {
                        if after.contains(x) {
                            let k = choose|k: int| 0 <= k < after.len() && after[k] == x;
                            if k < before.len() {
                                assert(before[k] == x);
                            }
                        }
                        if before.contains(x) {
                            let k = choose|k: int| 0 <= k < before.len() && before[k] == x;
                            assert(after[k] == x);
                        }
                        if x == sid@ {
                            assert(after[before.len() as int] == sid@);
                        }
                    }
                    assert(after.to_set() =~= before.to_set().insert(sid@));
                }
                true
            },
        }
    }

    /// Takes note of an upload for a session. `true` comes back for a session that nothing
    /// has named before: it is to be forgotten unless its download comes in time.
    pub fn on_post(&mut self, session: &Option<String>) -> (r: bool)
        requires
            old(self).wf(),
        ensures
            final(self).wf(),
            match *session {
                Some(sid) => r == !old(self).state().known.contains(sid@) && final(self).state()
                    == (TableView {
                    known: old(self).state().known.insert(sid@),
                    ..old(self).state()
                }),
                None => !r && final(self).state() == old(self).state(),
            },
    {
        match session {
            Some(sid) => self.remember(sid.as_str()),
            None => false,
        }
    }

    /// Takes note of a request for the download, which only the first one gets.
    pub fn on_get(&mut self, session: &Option<String>) -> (r: Downlink)
        requires
            old(self).wf(),
        ensures
            final(self).wf(),
            r == (if old(self).state().taken {
                Downlink::Conflict
            } else {
                Downlink::Granted
            }),
            final(self).state().taken,
            final(self).state().known == (match *session {
                Some(sid) => old(self).state().known.insert(sid@),
                None => old(self).state().known,
            }),
    {
        if let Some(sid) = session {
            let fresh = self.remember(sid.as_str());
        }
        if self.taken {
            Downlink::Conflict
        } else {
            self.taken = true;
            Downlink::Granted
        }
    }

    /// Forgets a session whose download never came.
    pub fn on_expired(&mut self, sid: &str)
        requires
            old(self).wf(),
        ensures
            final(self).wf(),
            final(self).state() == (TableView {
                known: old(self).state().known.remove(sid@),
                ..old(self).state()
            }),
    {
        let ghost before = text::texts(self.known@);
        match self.find(sid) {
            Some(i) => {
                let gone = self.known.remove(i);
                proof {
                    let after = text::texts(self.known@);
                    assert(after =~= before.remove(i as int));
                    assert forall|x: Seq<char>| after.to_set().contains(x)
                        == before.to_set().remove(sid@).contains(x) by {
                        if after.contains(x) {
                            let k = choose|k: int| 0 <= k < after.len() && after[k] == x;
                            if k < i {
                                assert(before[k] == x);
                            } else {
                                assert(before[k + 1] == x);
                            }
                        }
                        if before.contains(x) && x != sid@ {
                            let k = choose|k: int| 0 <= k < before.len() && before[k] == x;
                            if k < i {
                                assert(after[k] == x);
                            } else {
                                assert(after[k - 1] == x);
                            }
                        }
                    }
                    assert(after.to_set() =~= before.to_set().remove(sid@));
                }
            },
            None => {
                assert(!before.to_set().contains(sid@));
                assert(before.to_set().remove(sid@) =~= before.to_set());
            },
        }
    }
}

/// A header of an answer.
pub type Header = (&'static str, &'static str);

/// The texts of a list of headers.
pub open spec fn header_texts(v: Seq<Header>) -> Seq<(Seq<char>, Seq<char>)> {
    v.map_values(|h: Header| (h.0@, h.1@))
}

/// The headers of an answer without a body.
pub fn plain_headers() -> (r: Vec<Header>)
    ensures
        header_texts(r@) == seq![("Access-Control-Allow-Origin"@, "*"@)],
{
    let mut v: Vec<Header> = Vec::new();
    v.push(("Access-Control-Allow-Origin", "*"));
    assert(header_texts(v@) =~= seq![("Access-Control-Allow-Origin"@, "*"@)]);
    v
}

/// The headers that tell a browser what it may do.
pub fn preflight_headers() -> (r: Vec<Header>)
    ensures
        header_texts(r@) == seq![
            ("Access-Control-Allow-Origin"@, "*"@),
            ("Access-Control-Allow-Methods"@, "GET, POST, PUT, OPTIONS"@),
            ("Access-Control-Allow-Headers"@, "Content-Type"@),
        ],
{
    let mut v: Vec<Header> = Vec::new();
    v.push(("Access-Control-Allow-Origin", "*"));
    v.push(("Access-Control-Allow-Methods", "GET, POST, PUT, OPTIONS"));
    v.push(("Access-Control-Allow-Headers", "Content-Type"));
    assert(header_texts(v@) =~= seq![
        ("Access-Control-Allow-Origin"@, "*"@),
        ("Access-Control-Allow-Methods"@, "GET, POST, PUT, OPTIONS"@),
        ("Access-Control-Allow-Headers"@, "Content-Type"@),
    ]);
    v
}

/// The headers of a download.
pub fn download_headers() -> (r: Vec<Header>)
    ensures
        header_texts(r@) == seq![
            ("Content-Type"@, "application/octet-stream"@),
            ("Cache-Control"@, "no-cache, no-store"@),
            ("Access-Control-Allow-Origin"@, "*"@),
            ("X-Accel-Buffering"@, "no"@),
        ],
{
    let mut v: Vec<Header> = Vec::new();
    v.push(("Content-Type", "application/octet-stream"));
    v.push(("Cache-Control", "no-cache, no-store"));
    v.push(("Access-Control-Allow-Origin", "*"));
    v.push(("X-Accel-Buffering", "no"));
    assert(header_texts(v@) =~= seq![
        ("Content-Type"@, "application/octet-stream"@),
        ("Cache-Control"@, "no-cache, no-store"@),
        ("Access-Control-Allow-Origin"@, "*"@),
        ("X-Accel-Buffering"@, "no"@),
    ]);
    v
}

} // verus!
