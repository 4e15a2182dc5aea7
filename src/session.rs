use vstd::prelude::*;

verus! {

#[verifier::external_type_specification]
#[verifier::external_body]
pub struct ExPostcardError(postcard::Error);

/// What postcard decodes from `bytes` as a list of string pairs, or `None`
/// where it reports an error.
pub uninterp spec fn postcard_pairs(bytes: Seq<u8>) -> Option<Seq<(Seq<char>, Seq<char>)>>;

pub open spec fn pairs_view(v: Seq<(String, String)>) -> Seq<(Seq<char>, Seq<char>)> {
    v.map_values(|p: (String, String)| (p.0@, p.1@))
}

/// Relies on postcard::from_bytes, decoding a `Vec<(String, String)>`: the
/// outcome depends on the bytes alone.
#[verifier::external_body]
fn decode_pairs(bytes: &[u8]) -> (r: Result<Vec<(String, String)>, postcard::Error>)
    ensures
        r is Ok <==> postcard_pairs(bytes@) is Some,
        r is Ok ==> postcard_pairs(bytes@) == Some(pairs_view(r->Ok_0@)),
{
    postcard::from_bytes::<Vec<(String, String)>>(bytes)
}

/// The list of sessions a catalogue offers: for each, its display name and
/// the path of its course list, newest first.
pub struct SessionIndex {
    pub entries: Vec<(String, String)>,
}

impl SessionIndex {
    /// Decodes an index from its postcard encoding; `None` where the bytes
    /// do not decode.
    pub fn from_bytes(bytes: &[u8]) -> (r: Option<SessionIndex>)
        ensures
            r is Some <==> postcard_pairs(bytes@) is Some,
            r is Some ==> postcard_pairs(bytes@) == Some(pairs_view(r->Some_0.entries@)),
    {
        match decode_pairs(bytes) {
            Ok(entries) => Some(SessionIndex { entries }),
            Err(_) => None,
        }
    }
}

/// The names of the sessions, in index order.
pub fn sessions(index: &SessionIndex) -> (r: Vec<String>)
    ensures
        r@.len() == index.entries@.len(),
        forall|i: int| 0 <= i < r@.len() ==> (#[trigger] r@[i])@ == index.entries@[i].0@,
{
    let mut r: Vec<String> = Vec::new();
    let mut i: usize = 0;
    while i < index.entries.len()
        invariant
            i <= index.entries@.len(),
            r@.len() == i,
            forall|k: int| 0 <= k < i ==> (#[trigger] r@[k])@ == index.entries@[k].0@,
        decreases index.entries@.len() - i,
    {
        r.push(index.entries[i].0.clone());
        i = i + 1;
    }
    r
}

/// The first session of the index, which is the newest.
pub fn default_session(index: &SessionIndex) -> (r: String)
    requires
        index.entries@.len() > 0,
    ensures
        r@ == index.entries@[0].0@,
{
    index.entries[0].0.clone()
}

/// The path of the course list of the first session named `name`.
pub fn session_path(index: &SessionIndex, name: &str) -> (r: String)
    requires
        exists|i: int| 0 <= i < index.entries@.len() && (#[trigger] index.entries@[i]).0@ == name@,
    ensures
        exists|i: int|
            0 <= i < index.entries@.len() && (#[trigger] index.entries@[i]).0@ == name@ && r@
                == index.entries@[i].1@ && forall|k: int| 0 <= k < i ==> (#[trigger] index.entries@[k]).0@ != name@,
{
    let mut i: usize = 0;
    while i < index.entries.len()
        invariant
            i <= index.entries@.len(),
            exists|j: int| 0 <= j < index.entries@.len() && (#[trigger] index.entries@[j]).0@ == name@,
            forall|k: int| 0 <= k < i ==> (#[trigger] index.entries@[k]).0@ != name@,
        decreases index.entries@.len() - i,
    {
        if str_eq(index.entries[i].0.as_str(), name) {
            return index.entries[i].1.clone();
        }
        i = i + 1;
    }
    // Not reached: some entry has that name, so the loop returns.
    proof {
        let j = choose|j: int| 0 <= j < index.entries@.len() && (#[trigger] index.entries@[j]).0@ == name@;
        assert(index.entries@[j].0@ != name@);
    }
    String::new()
}

/// Whether `a` and `b` hold the same characters.
fn str_eq(a: &str, b: &str) -> (r: bool)
    ensures
        r == (a@ == b@),
{
    let n = a.unicode_len();
    if n != b.unicode_len() {
        return false;
    }
    let mut i: usize = 0;
    while i < n
        invariant
            n == a@.len(),
            n == b@.len(),
            i <= n,
            forall|k: int| 0 <= k < i ==> a@[k] == b@[k],
        decreases n - i,
    {
        if a.get_char(i) != b.get_char(i) {
            return false;
        }
        i = i + 1;
    }
    assert(a@ =~= b@);
    true
}

} // verus!
