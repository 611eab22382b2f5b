//! The decisions of a key search: judging one trial decryption, tracking
//! the workers of a search, and handing out the key space to slaves.

use vstd::prelude::*;
use vstd::string::StringExecFns;
use vstd::utf8::{decode_utf8, valid_utf8};
use crate::keypool::{KeyPool, KeyPoolView};
use crate::util::{is_english, zeros};

verus! {

/// `std::str::from_utf8`: the text that `bytes` encode, present exactly
/// when the bytes are valid UTF-8.
#[verifier::external_body]
fn utf8_text(bytes: &[u8]) -> (r: Option<&str>)
    ensures
        r is Some <==> valid_utf8(bytes@),
        r matches Some(t) ==> t@ == decode_utf8(bytes@),
{
    std::str::from_utf8(bytes).ok()
}

/// What trying one key gave.
pub struct Trial {
    /// The key's bytes, when the decryption under it reads as plaintext.
    pub found: Option<Vec<u8>>,
    /// The decoded plaintext, when the decryption is valid UTF-8.
    pub plaintext: Option<String>,
    /// The key to try next.
    pub next: KeyPool,
}

/// Judges the decryption of the cipher text under `key` (`None` when the
/// decryption failed): the key is a candidate when the decryption decodes
/// as UTF-8 text that reads as English.  The next key to try is the pool
/// one key further on.
pub fn try_key(key: &KeyPool, decrypted: Option<Vec<u8>>) -> (t: Trial)
    requires
        key.dynamic_bytes.len() > 0,
    ensures
        t.plaintext is Some <==> (decrypted matches Some(d) && valid_utf8(d@)),
        t.plaintext matches Some(p) ==> p@ == decode_utf8(decrypted->0@),
        t.found is Some <==> t.plaintext is Some,
        t.found matches Some(k) ==> k@ == key@.key(),
        t.next@ == key@.next_key(),
{
    let mut found: Option<Vec<u8>> = None;
    let mut plaintext: Option<String> = None;
    match decrypted {
        Some(decrypted_data) => {
            match utf8_text(decrypted_data.as_slice()) {
                Some(pt) => {
                    let text = String::from_str(pt);
                    if is_english(String::from_str(pt)) {
                        found = Some(key.to_vec());
                    }
                    plaintext = Some(text);
                },
                None => {},
            }
        },
        None => {},
    }
    Trial { found, plaintext, next: key.inc() }
}

/// Where the collecting side of a search stands after one poll.
#[derive(Debug, PartialEq, Eq, Structural)]
pub enum Progress {
    /// A worker reported a candidate key: take it and stop.
    KeyFound,
    /// Every worker has finished without a candidate reaching us: stop.
    AllFinished,
    /// Keep polling; this many workers have finished.
    Waiting(usize),
}

/// One poll of the collecting side: `verdict` is a worker's report on a
/// key, if one came in (`true` for a candidate), and `newly_finished` the
/// count of workers that reported finishing, if any did.  A candidate
/// ends the search at once; otherwise the finished workers are counted,
/// and the search ends when all `workers` have finished.
pub fn coordinate(
    finished: usize,
    workers: usize,
    verdict: Option<bool>,
    newly_finished: Option<usize>,
) -> (r: Progress)
    requires
        newly_finished matches Some(n) ==> finished + n <= usize::MAX,
    ensures
        verdict == Some(true) ==> r == Progress::KeyFound,
        verdict != Some(true) ==> {
            let count = finished + match newly_finished {
                Some(n) => n as int,
                None => 0,
            };
            &&& count == workers ==> r == Progress::AllFinished
            &&& count != workers ==> r == Progress::Waiting(count as usize)
        },
{
    match verdict {
        Some(value) if value => {
            return Progress::KeyFound;
        },
        _ => {},
    }
    let mut count = finished;
    match newly_finished {
        Some(n) => {
            count = count + n;
        },
        _ => {},
    }
    if count == workers {
        Progress::AllFinished
    } else {
        Progress::Waiting(count)
    }
}

/// The pool a master searches for a 16-byte key whose leading bytes are
/// `iv`: the remaining bytes are counted through the full wheel.
pub open spec fn master_pool(iv: Seq<u8>) -> KeyPoolView {
    KeyPoolView {
        cap: 0,
        start: 0,
        static_ms: iv,
        dynamic: zeros((16 - iv.len()) as nat),
        static_ls: seq![],
    }
}

/// The jobs a master hands to `slaves` slaves: the 16-byte key space with
/// the leading bytes fixed to `iv`, split into one partition per slave.
pub fn plan_jobs(iv: Vec<u8>, slaves: u64) -> (keys: Vec<KeyPool>)
    requires
        iv@.len() < 16,
        slaves > 0,
    ensures
        keys@.len() == slaves,
        forall|i: int|
            0 <= i < slaves ==> #[trigger] keys@[i]@ == master_pool(iv@).partition(slaves, i),
        forall|i: int| 0 <= i < slaves ==> (#[trigger] keys@[i]@).key().len() == 16,
{
    let mut kp = KeyPool::new(iv.len() as u8, (16 - iv.len()) as u8, 0);
    kp.static_ms_bytes = iv;
    assert(kp.static_ls_bytes@ =~= Seq::<u8>::empty());
    assert(kp.dynamic_bytes@ =~= zeros((16 - kp.static_ms_bytes@.len()) as nat));
    assert(kp@ == master_pool(kp.static_ms_bytes@));
    let keys = kp.split_key(slaves);
    assert forall|i: int| 0 <= i < slaves implies (#[trigger] keys@[i]@).key().len() == 16 by {
        crate::keypool::lemma_partitions_contiguous(kp@, slaves, i);
    }
    keys
}

} // verus!
