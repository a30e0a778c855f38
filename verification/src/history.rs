use crate::naming::{parse_archive, parse_spec, ArchiveRecord};
use crate::timestamp::Timestamp;
use vstd::pervasive::VecAdditionalExecFns;
use vstd::prelude::*;

verus! {

/// Records in strictly ascending chronological order: oldest first, no two
/// records for the same instant.
pub open spec fn sorted_strict(h: Seq<ArchiveRecord>) -> bool {
    forall|a: int, b: int|
        0 <= a < b < h.len() ==> #[trigger] h[a].timestamp.key() < #[trigger] h[b].timestamp.key()
}

/// Every record carries a valid timestamp.
pub open spec fn all_valid(h: Seq<ArchiveRecord>) -> bool {
    forall|j: int| 0 <= j < h.len() ==> (#[trigger] h[j]).timestamp.valid()
}

/// Some record in `h` is for the instant `ts`.
pub open spec fn contains_ts(h: Seq<ArchiveRecord>, ts: Timestamp) -> bool {
    exists|j: int| 0 <= j < h.len() && (#[trigger] h[j]).timestamp == ts
}

/// The record in `h` for the instant `ts` is marked compressed.
pub open spec fn marked_compressed(h: Seq<ArchiveRecord>, ts: Timestamp) -> bool {
    exists|j: int| 0 <= j < h.len() && (#[trigger] h[j]).timestamp == ts && h[j].compressed
}

/// Some directory entry in `names` parses as an archive of the log
/// `{stem}{ext}` rotated at `ts`, in either form.
pub open spec fn parsed_ts(names: Seq<Seq<u8>>, stem: Seq<u8>, ext: Seq<u8>, ts: Timestamp) -> bool {
    exists|i: int|
        0 <= i < names.len() && match #[trigger] parse_spec(names[i], stem, ext) {
            Some(r) => r.timestamp == ts,
            None => false,
        }
}

/// Some directory entry in `names` parses as a compressed archive of the
/// log `{stem}{ext}` rotated at `ts`.
pub open spec fn parsed_compressed_ts(
    names: Seq<Seq<u8>>,
    stem: Seq<u8>,
    ext: Seq<u8>,
    ts: Timestamp,
) -> bool {
    exists|i: int|
        0 <= i < names.len() && match #[trigger] parse_spec(names[i], stem, ext) {
            Some(r) => r.timestamp == ts && r.compressed,
            None => false,
        }
}

/// Places one parsed record into the ordered history: a new instant goes to
/// its chronological position; a sibling of an instant already present only
/// strengthens that record's compressed mark.
#[verifier::rlimit(40)]
fn insert_merge(history: &mut Vec<ArchiveRecord>, rec: ArchiveRecord)
    requires
        sorted_strict(old(history)@),
        all_valid(old(history)@),
        rec.timestamp.valid(),
    ensures
        sorted_strict(final(history)@),
        all_valid(final(history)@),
        forall|ts: Timestamp|
            #[trigger] contains_ts(final(history)@, ts) <==> (contains_ts(old(history)@, ts) || ts
                == rec.timestamp),
        forall|ts: Timestamp|
            #[trigger] marked_compressed(final(history)@, ts) <==> (marked_compressed(
                old(history)@,
                ts,
            ) || (ts == rec.timestamp && rec.compressed)),
{
    let ghost h0 = history@;
    let k = rec.timestamp.chronological_key();
    let mut p: usize = 0;
    loop
        invariant
            sorted_strict(history@),
            all_valid(history@),
            rec.timestamp.valid(),
            history@ == h0,
            k as int == rec.timestamp.key(),
            p <= history@.len(),
            forall|j: int| 0 <= j < p ==> (#[trigger] history@[j]).timestamp.key() < k as int,
        ensures
            history@ == h0,
            p <= history@.len(),
            forall|j: int| 0 <= j < p ==> (#[trigger] history@[j]).timestamp.key() < k as int,
            p < history@.len() ==> history@[p as int].timestamp.key() >= k as int,
        decreases history@.len() - p,
    {
        if p >= history.len() {
            break;
        }
        if history[p].timestamp.chronological_key() >= k {
            break;
        }
        p = p + 1;
    }
    if p < history.len() && history[p].timestamp.chronological_key() == k {
        let cur = history[p];
        proof {
            Timestamp::lemma_key_injective(cur.timestamp, rec.timestamp);
        }
        let merged = ArchiveRecord {
            timestamp: cur.timestamp,
            compressed: cur.compressed || rec.compressed,
        };
        history.set(p, merged);
        proof {
            let hf = history@;
            assert forall|ts: Timestamp|
                contains_ts(hf, ts) implies (contains_ts(h0, ts) || ts == rec.timestamp) by {
                let j = choose|j: int| 0 <= j < hf.len() && hf[j].timestamp == ts;
                if j != p {
                    assert(h0[j].timestamp == ts);
                }
            }
            assert forall|ts: Timestamp|
                (contains_ts(h0, ts) || ts == rec.timestamp) implies contains_ts(hf, ts) by {
                if ts == rec.timestamp {
                    assert(hf[p as int].timestamp == ts);
                } else {
                    let j = choose|j: int| 0 <= j < h0.len() && h0[j].timestamp == ts;
                    assert(hf[j].timestamp == ts);
                }
            }
            assert forall|ts: Timestamp|
                marked_compressed(hf, ts) implies (marked_compressed(h0, ts) || (ts
                == rec.timestamp && rec.compressed)) by {
                let j = choose|j: int|
                    0 <= j < hf.len() && hf[j].timestamp == ts && hf[j].compressed;
                if j != p {
                    assert(h0[j].timestamp == ts && h0[j].compressed);
                } else {
                    if cur.compressed {
                        assert(h0[p as int].timestamp == ts && h0[p as int].compressed);
                    }
                }
            }
            assert forall|ts: Timestamp|
                (marked_compressed(h0, ts) || (ts == rec.timestamp
                && rec.compressed)) implies marked_compressed(hf, ts) by {
                if ts == rec.timestamp && rec.compressed {
                    assert(hf[p as int].timestamp == ts && hf[p as int].compressed);
                } else {
                    let j = choose|j: int|
                        0 <= j < h0.len() && h0[j].timestamp == ts && h0[j].compressed;
                    if j == p {
                        assert(hf[p as int].timestamp == ts && hf[p as int].compressed);
                    } else {
                        assert(hf[j].timestamp == ts && hf[j].compressed);
                    }
                }
            }
        }
    } else {
        proof {
            h0.insert_ensures(p as int, rec);
            if p < h0.len() {
                assert(h0[p as int].timestamp.key() != k as int);
            }
        }
        history.insert(p, rec);
        proof {
            let hf = history@;
            assert forall|a: int, b: int| 0 <= a < b < hf.len() implies hf[a].timestamp.key()
                < hf[b].timestamp.key() by {
                let ka = hf[a].timestamp.key();
                let kb = hf[b].timestamp.key();
                if a < p && b < p {
                    assert(hf[a] == h0[a] && hf[b] == h0[b]);
                } else if a < p && b == p {
                    assert(hf[a] == h0[a]);
                } else if a == p && b > p {
                    assert(hf[b] == h0[b - 1]);
                    assert(h0[b - 1].timestamp.key() >= h0[p as int].timestamp.key());
                } else if a < p && b > p {
                    assert(hf[a] == h0[a] && hf[b] == h0[b - 1]);
                } else {
                    assert(hf[a] == h0[a - 1] && hf[b] == h0[b - 1]);
                }
            }
            assert forall|ts: Timestamp|
                contains_ts(hf, ts) implies (contains_ts(h0, ts) || ts == rec.timestamp) by {
                let j = choose|j: int| 0 <= j < hf.len() && hf[j].timestamp == ts;
                if j < p {
                    assert(h0[j].timestamp == ts);
                } else if j > p {
                    assert(h0[j - 1].timestamp == ts);
                }
            }
            assert forall|ts: Timestamp|
                (contains_ts(h0, ts) || ts == rec.timestamp) implies contains_ts(hf, ts) by {
                if ts == rec.timestamp {
                    assert(hf[p as int].timestamp == ts);
                } else {
                    let j = choose|j: int| 0 <= j < h0.len() && h0[j].timestamp == ts;
                    if j < p {
                        assert(hf[j].timestamp == ts);
                    } else {
                        assert(hf[j + 1].timestamp == ts);
                    }
                }
            }
            assert forall|ts: Timestamp|
                marked_compressed(hf, ts) implies (marked_compressed(h0, ts) || (ts
                == rec.timestamp && rec.compressed)) by {
                let j = choose|j: int|
                    0 <= j < hf.len() && hf[j].timestamp == ts && hf[j].compressed;
                if j < p {
                    assert(h0[j].timestamp == ts && h0[j].compressed);
                } else if j > p {
                    assert(h0[j - 1].timestamp == ts && h0[j - 1].compressed);
                }
            }
            assert forall|ts: Timestamp|
                (marked_compressed(h0, ts) || (ts == rec.timestamp
                && rec.compressed)) implies marked_compressed(hf, ts) by {
                if ts == rec.timestamp && rec.compressed {
                    assert(hf[p as int].timestamp == ts && hf[p as int].compressed);
                } else {
                    let j = choose|j: int|
                        0 <= j < h0.len() && h0[j].timestamp == ts && h0[j].compressed;
                    if j < p {
                        assert(hf[j].timestamp == ts && hf[j].compressed);
                    } else {
                        assert(hf[j + 1].timestamp == ts && hf[j + 1].compressed);
                    }
                }
            }
        }
    }
}

/// Rebuilds the rotation history from a directory listing: keeps exactly
/// the file names that parse against the naming scheme of `{stem}{ext}`,
/// one record per rotation instant, in chronological order, the record
/// marked compressed exactly when a compressed form of it was listed.
/// Unrelated files are ignored. The filesystem is the only index: this scan
/// is what keeps ordering and retention correct across restarts.
pub fn scan(names: &Vec<Vec<u8>>, stem: &Vec<u8>, ext: &Vec<u8>) -> (history: Vec<ArchiveRecord>)
    ensures
        sorted_strict(history@),
        all_valid(history@),
        forall|ts: Timestamp|
            #[trigger] contains_ts(history@, ts) <==> parsed_ts(names.deep_view(), stem@, ext@, ts),
        forall|ts: Timestamp|
            #[trigger] marked_compressed(history@, ts) <==> parsed_compressed_ts(
                names.deep_view(),
                stem@,
                ext@,
                ts,
            ),
{
    let ghost dv = names.deep_view();
    let mut history: Vec<ArchiveRecord> = Vec::new();
    let mut i: usize = 0;
    while i < names.len()
        invariant
            i <= names@.len(),
            dv == names.deep_view(),
            dv.len() == names@.len(),
            sorted_strict(history@),
            all_valid(history@),
            forall|ts: Timestamp|
                #[trigger] contains_ts(history@, ts) <==> parsed_ts(
                    dv.subrange(0, i as int),
                    stem@,
                    ext@,
                    ts,
                ),
            forall|ts: Timestamp|
                #[trigger] marked_compressed(history@, ts) <==> parsed_compressed_ts(
                    dv.subrange(0, i as int),
                    stem@,
                    ext@,
                    ts,
                ),
        decreases names@.len() - i,
    {
        let ghost pre = dv.subrange(0, i as int);
        let ghost post = dv.subrange(0, i + 1);
        proof {
            assert(post.drop_last() =~= pre);
            assert(post[i as int] == names@[i as int]@);
        }
        let r = parse_archive(&names[i], stem, ext);
        let ghost h_before = history@;
        match r {
            Some(rec) => {
                proof {
                    assert(rec.timestamp.valid());
                }
                insert_merge(&mut history, rec);
            },
            None => {},
        }
        proof {
            let hf = history@;
            assert forall|ts: Timestamp|
                contains_ts(hf, ts) implies parsed_ts(post, stem@, ext@, ts) by {
                if contains_ts(h_before, ts) {
                    let w = choose|w: int|
                        0 <= w < pre.len() && match #[trigger] parse_spec(pre[w], stem@, ext@) {
                            Some(r2) => r2.timestamp == ts,
                            None => false,
                        };
                    assert(post[w] == pre[w]);
                    assert(match parse_spec(post[w], stem@, ext@) {
                        Some(r2) => r2.timestamp == ts,
                        None => false,
                    });
                } else {
                    assert(match parse_spec(post[i as int], stem@, ext@) {
                        Some(r2) => r2.timestamp == ts,
                        None => false,
                    });
                }
            }
            assert forall|ts: Timestamp|
                parsed_ts(post, stem@, ext@, ts) implies contains_ts(hf, ts) by {
                let w = choose|w: int|
                    0 <= w < post.len() && match #[trigger] parse_spec(post[w], stem@, ext@) {
                        Some(r2) => r2.timestamp == ts,
                        None => false,
                    };
                if w < i {
                    assert(pre[w] == post[w]);
                    assert(parsed_ts(pre, stem@, ext@, ts));
                }
            }
            assert forall|ts: Timestamp|
                marked_compressed(hf, ts) implies parsed_compressed_ts(post, stem@, ext@, ts) by {
                if marked_compressed(h_before, ts) {
                    let w = choose|w: int|
                        0 <= w < pre.len() && match #[trigger] parse_spec(pre[w], stem@, ext@) {
                            Some(r2) => r2.timestamp == ts && r2.compressed,
                            None => false,
                        };
                    assert(post[w] == pre[w]);
                    assert(match parse_spec(post[w], stem@, ext@) {
                        Some(r2) => r2.timestamp == ts && r2.compressed,
                        None => false,
                    });
                } else {
                    assert(match parse_spec(post[i as int], stem@, ext@) {
                        Some(r2) => r2.timestamp == ts && r2.compressed,
                        None => false,
                    });
                }
            }
            assert forall|ts: Timestamp|
                parsed_compressed_ts(post, stem@, ext@, ts) implies marked_compressed(hf, ts) by {
                let w = choose|w: int|
                    0 <= w < post.len() && match #[trigger] parse_spec(post[w], stem@, ext@) {
                        Some(r2) => r2.timestamp == ts && r2.compressed,
                        None => false,
                    };
                if w < i {
                    assert(pre[w] == post[w]);
                    assert(parsed_compressed_ts(pre, stem@, ext@, ts));
                }
            }
        }
        i = i + 1;
    }
    proof {
        assert(dv.subrange(0, dv.len() as int) =~= dv);
    }
    history
}

/// Enforces the retention quota: while at least `max_count` records remain,
/// the oldest is removed. The removed records come back to the caller,
/// oldest first, so it can delete both files of each (best effort). The
/// retained records are exactly the newest `max_count - 1` — the deliberate
/// `>=` comparison of the policy, which keeps `max_count - 1` stored
/// archives plus the live file.
pub fn enforce(history: &mut Vec<ArchiveRecord>, max_count: usize) -> (evicted: Vec<ArchiveRecord>)
    requires
        max_count >= 1,
    ensures
        final(history)@.len() < max_count,
        old(history)@ == evicted@ + final(history)@,
        old(history)@.len() >= max_count ==> final(history)@.len() == max_count - 1,
        old(history)@.len() < max_count ==> final(history)@ == old(history)@ && evicted@.len()
            == 0,
{
    let mut evicted: Vec<ArchiveRecord> = Vec::new();
    while history.len() >= max_count
        invariant
            max_count >= 1,
            old(history)@ == evicted@ + history@,
            old(history)@.len() >= max_count ==> history@.len() >= max_count - 1,
            old(history)@.len() < max_count ==> history@ == old(history)@ && evicted@.len() == 0,
        decreases history@.len(),
    {
        let oldest = history.remove(0);
        evicted.push(oldest);
        assert(old(history)@ =~= evicted@ + history@);
    }
    assert(old(history)@ == evicted@ + history@);
    evicted
}

/// Oldest-first eviction: when a chronologically ordered history is split
/// by [`enforce`], no evicted record is newer than any retained one.
pub proof fn lemma_eviction_oldest_first(
    before: Seq<ArchiveRecord>,
    evicted: Seq<ArchiveRecord>,
    kept: Seq<ArchiveRecord>,
)
    requires
        sorted_strict(before),
        before == evicted + kept,
    ensures
        forall|a: int, b: int|
            0 <= a < evicted.len() && 0 <= b < kept.len() ==> (#[trigger] evicted[a]).timestamp.key()
                < (#[trigger] kept[b]).timestamp.key(),
{
    assert forall|a: int, b: int|
        0 <= a < evicted.len() && 0 <= b < kept.len() implies evicted[a].timestamp.key()
        < kept[b].timestamp.key() by {
        assert(before[a] == evicted[a]);
        assert(before[evicted.len() + b] == kept[b]);
    }
}

} // verus!
