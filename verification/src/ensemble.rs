//! Pure helpers of the one-shot ensemble status probe: parameter splitting,
//! column sizing, and the decision that turns raw node responses into a
//! node-status record. The probing itself is plain I/O and lives outside
//! the library.

use vstd::prelude::*;
use vstd::string::StrSliceExecFns;

verus! {

/// The reported replication mode of one node. The wire gives only free
/// text, so anything unrecognised is kept as `Unknown` instead of failing.
#[derive(Clone, Copy, PartialEq, Eq, Structural, Debug)]
pub enum Mode {
    Follower,
    Leader,
    Standalone,
    Unknown,
}

/// One node's status: its server id and its mode.
pub struct ZNode {
    pub id: String,
    pub mode: Mode,
}

pub open spec fn colon_count(s: Seq<char>) -> nat
    decreases s.len(),
{
    if s.len() == 0 {
        0
    } else {
        colon_count(s.drop_last()) + if s.last() == ':' {
            1nat
        } else {
            0nat
        }
    }
}

proof fn lemma_colon_count_concat(a: Seq<char>, b: Seq<char>)
    ensures
        colon_count(a + b) == colon_count(a) + colon_count(b),
    decreases b.len(),
{
    if b.len() == 0 {
        assert(a + b =~= a);
    } else {
        lemma_colon_count_concat(a, b.drop_last());
        assert((a + b).drop_last() =~= a + b.drop_last());
    }
}

proof fn lemma_colon_count_none(s: Seq<char>)
    requires
        forall|i: int| 0 <= i < s.len() ==> s[i] != ':',
    ensures
        colon_count(s) == 0,
    decreases s.len(),
{
    if s.len() > 0 {
        lemma_colon_count_none(s.drop_last());
    }
}

proof fn lemma_colon_count_positive(s: Seq<char>, i: int)
    requires
        0 <= i < s.len(),
        s[i] == ':',
    ensures
        colon_count(s) >= 1,
    decreases s.len(),
{
    if i + 1 < s.len() {
        lemma_colon_count_positive(s.drop_last(), i);
    }
}

/// Splits a `host:port` parameter at its one separator. The caller owes a
/// well-formed parameter; anything else the probe rejects up front.
pub fn split(s: &String) -> (r: (String, String))
    requires
        colon_count(s@) == 1,
    ensures
        r.0@ + seq![':'] + r.1@ == s@,
        forall|i: int| 0 <= i < r.0@.len() ==> r.0@[i] != ':',
        forall|i: int| 0 <= i < r.1@.len() ==> r.1@[i] != ':',
{
    let st = s.as_str();
    let n = st.unicode_len();
    let mut p: usize = 0;
    while p < n && st.get_char(p) != ':'
        invariant
            0 <= p <= n,
            n == st@.len(),
            st@ == s@,
            forall|i: int| 0 <= i < p ==> st@[i] != ':',
        decreases n - p,
    {
        p += 1;
    }
    if p == n {
        proof {
            lemma_colon_count_none(st@);
        }
        // unreachable: the parameter holds its separator
        (String::new(), String::new())
    } else {
        let host = st.substring_char(0, p).to_owned();
        let port = st.substring_char(p + 1, n).to_owned();
        proof {
            assert(host@ =~= s@.subrange(0, p as int));
            assert(port@ =~= s@.subrange(p as int + 1, n as int));
            assert(host@ + seq![':'] + port@ =~= s@);
            lemma_colon_count_concat(host@ + seq![':'], port@);
            lemma_colon_count_concat(host@, seq![':']);
            assert(colon_count(seq![':']) == 1) by {
                assert(seq![':'].drop_last() =~= Seq::<char>::empty());
            }
            lemma_colon_count_none(host@);
            assert(colon_count(port@) == 0);
            assert forall|i: int| 0 <= i < port@.len() implies port@[i] != ':' by {
                if port@[i] == ':' {
                    lemma_colon_count_positive(port@, i);
                }
            }
        }
        (host, port)
    }
}

/// The length of the longest entry, for column sizing.
pub fn max_len(v: &Vec<&String>) -> (r: usize)
    requires
        v@.len() > 0,
    ensures
        exists|i: int| 0 <= i < v@.len() && r == #[trigger] v@[i]@.len(),
        forall|i: int| 0 <= i < v@.len() ==> (#[trigger] v@[i]@).len() <= r,
{
    let mut best: usize = v[0].as_str().unicode_len();
    let mut i: usize = 1;
    while i < v.len()
        invariant
            1 <= i <= v@.len(),
            exists|j: int| 0 <= j < i && best == #[trigger] v@[j]@.len(),
            forall|j: int| 0 <= j < i ==> (#[trigger] v@[j]@).len() <= best,
        decreases v.len() - i,
    {
        let len = v[i].as_str().unicode_len();
        if len > best {
            best = len;
        }
        i += 1;
    }
    best
}

/// Drops the first character; nothing to drop in an empty string.
pub fn remove_first<'a>(s: &'a str) -> (r: Option<&'a str>)
    ensures
        s@.len() == 0 ==> r is None,
        s@.len() > 0 ==> (r matches Some(t) && t@ == s@.skip(1)),
{
    let n = s.unicode_len();
    if n == 0 {
        Option::None
    } else {
        let t = s.substring_char(1, n);
        proof {
            assert(t@ =~= s@.skip(1));
        }
        Option::Some(t)
    }
}

fn str_eq(a: &str, b: &str) -> (r: bool)
    ensures
        r == (a@ == b@),
{
    let na = a.unicode_len();
    let nb = b.unicode_len();
    if na != nb {
        return false;
    }
    let mut i: usize = 0;
    while i < na
        invariant
            0 <= i <= na,
            na == a@.len(),
            na == b@.len(),
            forall|j: int| 0 <= j < i ==> a@[j] == b@[j],
        decreases na - i,
    {
        if a.get_char(i) != b.get_char(i) {
            return false;
        }
        i += 1;
    }
    proof {
        assert(a@ =~= b@);
    }
    true
}

/// The mode a node's reported text stands for.
pub open spec fn mode_of(s: Seq<char>) -> Mode {
    if s == "follower"@ {
        Mode::Follower
    } else if s == "leader"@ {
        Mode::Leader
    } else if s == "standalone"@ {
        Mode::Standalone
    } else {
        Mode::Unknown
    }
}

/// Maps a node's reported mode text to the closed mode set; free text the
/// probe does not know stays `Unknown` rather than failing.
pub fn parse_mode(m: &str) -> (r: Mode)
    ensures
        r == mode_of(m@),
{
    if str_eq(m, "follower") {
        Mode::Follower
    } else if str_eq(m, "leader") {
        Mode::Leader
    } else if str_eq(m, "standalone") {
        Mode::Standalone
    } else {
        Mode::Unknown
    }
}

/// The status decision over the two probe responses: a node record exactly
/// when both the mode and the server id came back.
pub fn znode_of(mode: Option<String>, server_id: Option<String>) -> (r: Option<ZNode>)
    ensures
        r is Some <==> (mode is Some && server_id is Some),
        r matches Some(z) ==> (mode matches Some(m) && z.mode == mode_of(m@)) && (
        server_id matches Some(id) && z.id == id),
{
    match (mode, server_id) {
        (Option::Some(m), Option::Some(id)) => {
            let parsed = parse_mode(m.as_str());
            Option::Some(ZNode { id, mode: parsed })
        },
        _ => Option::None,
    }
}

} // verus!
