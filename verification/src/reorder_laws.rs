//! What reordering keeps: every record fed is released, waiting or counted as a
//! duplicate, and no channel's expected sequence ever moves back.
use vstd::prelude::*;
use crate::record::RecordView;
use crate::reorder::{
    ChannelView, QueuedView, ReorderState, Config, channel_ok, count, weight, relieve, expired,
    released, release_out, release_start, release_skip, sat_add, is_oldest, oldest_channel, age,
    min_received, lower_count, insert_pending, feed_result, feed_channels, find_key, key_of,
    fresh_channel, lemma_run_len, lemma_released, lemma_count_update, lemma_count_bounds,
    lemma_count_push, lemma_insert_ok, lemma_relieve_subset, run_len, keys_distinct, ReorderError,
};

verus! {

/// Every channel is well formed.
pub open spec fn all_ok(chs: Seq<ChannelView>) -> bool {
    forall|i: int| 0 <= i < chs.len() ==> channel_ok(#[trigger] chs[i])
}

/// `after` keeps the channels of `before` in place, with the same keys and
/// expected sequences no smaller.
pub open spec fn advanced(before: Seq<ChannelView>, after: Seq<ChannelView>) -> bool {
    &&& before.len() <= after.len()
    &&& forall|i: int| 0 <= i < before.len() ==> {
        &&& (#[trigger] after[i]).key == before[i].key
        &&& after[i].next >= before[i].next
    }
}

proof fn lemma_release_counts(c: ChannelView, force: bool)
    ensures
        released(c, force).pending.len() + release_out(c, force).len() == c.pending.len(),
        released(c, force).key == c.key,
{
    lemma_run_len(c.pending, release_start(c, force));
}

proof fn lemma_advanced_trans(a: Seq<ChannelView>, b: Seq<ChannelView>, c: Seq<ChannelView>)
    requires
        advanced(a, b),
        advanced(b, c),
    ensures
        advanced(a, c),
{
    assert forall|i: int| 0 <= i < a.len() implies {
        &&& (#[trigger] c[i]).key == a[i].key
        &&& c[i].next >= a[i].next
    } by {
        assert(b[i].key == a[i].key);
    }
}

/// One forced release of the oldest channel, as relieving and expiry do it.
proof fn lemma_forced_step(chs: Seq<ChannelView>, k: int)
    requires
        all_ok(chs),
        is_oldest(chs, k),
    ensures
        all_ok(chs.update(k, released(chs[k], true))),
        advanced(chs, chs.update(k, released(chs[k], true))),
        chs.update(k, released(chs[k], true)).len() == chs.len(),
        count(chs) == count(chs.update(k, released(chs[k], true))) + release_out(chs[k], true).len(),
{
    let c = chs[k];
    let u = chs.update(k, released(c, true));
    lemma_released(c, true);
    lemma_release_counts(c, true);
    lemma_count_update(chs, k, released(c, true));
    assert forall|i: int| 0 <= i < u.len() implies channel_ok(#[trigger] u[i]) by {
        if i != k {
            assert(u[i] == chs[i]);
        }
    }
}

proof fn lemma_oldest_is_oldest(chs: Seq<ChannelView>)
    ensures
        oldest_channel(chs) matches Some(k) ==> is_oldest(chs, k),
{
    if exists|k: int| is_oldest(chs, k) {
        let w = choose|k: int| is_oldest(chs, k);
        assert(is_oldest(chs, w));
    }
}

/// Relieving releases exactly what leaves the channels and moves no channel back.
pub proof fn lemma_relieve_conserves(chs: Seq<ChannelView>, skipped: u64, max_records: int, max_bytes: int, need: int)
    requires
        all_ok(chs),
    ensures
        ({
            let r = relieve(chs, skipped, max_records, max_bytes, need);
            &&& r.0.len() == chs.len()
            &&& all_ok(r.0)
            &&& advanced(chs, r.0)
            &&& count(chs) == count(r.0) + r.2.len()
        }),
    decreases count(chs),
{
    if count(chs) >= max_records || weight(chs) + need > max_bytes {
        lemma_oldest_is_oldest(chs);
        match oldest_channel(chs) {
            None => {},
            Some(k) => {
                let u = chs.update(k, released(chs[k], true));
                lemma_forced_step(chs, k);
                lemma_count_bounds(chs);
                lemma_count_bounds(u);
                lemma_run_len(chs[k].pending, release_start(chs[k], true));
                lemma_relieve_conserves(u, sat_add(skipped, release_skip(chs[k], true)), max_records, max_bytes, need);
                let r = relieve(u, sat_add(skipped, release_skip(chs[k], true)), max_records, max_bytes, need);
                lemma_advanced_trans(chs, u, r.0);
            },
        }
    }
}

/// Expiry releases exactly what leaves the channels and moves no channel back.
pub proof fn lemma_expired_conserves(chs: Seq<ChannelView>, skipped: u64, now: u64, delay: int)
    requires
        all_ok(chs),
    ensures
        ({
            let r = expired(chs, skipped, now, delay);
            &&& r.0.len() == chs.len()
            &&& all_ok(r.0)
            &&& advanced(chs, r.0)
            &&& count(chs) == count(r.0) + r.2.len()
        }),
    decreases count(chs),
{
    lemma_oldest_is_oldest(chs);
    match oldest_channel(chs) {
        None => {},
        Some(k) => {
            if age(now, min_received(chs[k].pending)) >= delay {
                let u = chs.update(k, released(chs[k], true));
                lemma_forced_step(chs, k);
                lemma_count_bounds(chs);
                lemma_count_bounds(u);
                lemma_run_len(chs[k].pending, release_start(chs[k], true));
                lemma_expired_conserves(u, sat_add(skipped, release_skip(chs[k], true)), now, delay);
                let r = expired(u, sat_add(skipped, release_skip(chs[k], true)), now, delay);
                lemma_advanced_trans(chs, u, r.0);
            }
        },
    }
}

/// Law: expiring or flushing hands out every record that leaves the waiting
/// buffers, and no channel's expected sequence moves back.
pub proof fn lemma_expire_conserves(chs: Seq<ChannelView>, skipped: u64, now: u64, delay: int)
    requires
        all_ok(chs),
    ensures
        count(chs) == count(expired(chs, skipped, now, delay).0) + expired(chs, skipped, now, delay).2.len(),
        advanced(chs, expired(chs, skipped, now, delay).0),
{
    lemma_expired_conserves(chs, skipped, now, delay);
}

proof fn lemma_lower_count_sorted(p: Seq<QueuedView>, seq: u64)
    requires
        forall|i: int, j: int| 0 <= i < j < p.len() ==> p[i].seq < p[j].seq,
    ensures
        0 <= lower_count(p, seq) <= p.len(),
        forall|j: int| 0 <= j < lower_count(p, seq) ==> #[trigger] p[j].seq < seq,
        lower_count(p, seq) < p.len() ==> p[lower_count(p, seq)].seq >= seq,
    decreases p.len(),
{
    if p.len() > 0 && p[0].seq < seq {
        let d = p.drop_first();
        assert forall|i: int, j: int| 0 <= i < j < d.len() implies d[i].seq < d[j].seq by {
            assert(d[i] == p[i + 1] && d[j] == p[j + 1]);
        }
        lemma_lower_count_sorted(d, seq);
        assert forall|j: int| 0 <= j < lower_count(p, seq) implies #[trigger] p[j].seq < seq by {
            if j > 0 {
                assert(p[j] == d[j - 1]);
            }
        }
        if lower_count(p, seq) < p.len() {
            assert(p[lower_count(p, seq)] == d[lower_count(d, seq)]);
        }
    }
}

/// Law: every record fed to a reordering processor is accounted for. When feeding
/// succeeds, the records waiting before plus the one fed equal the records
/// waiting after, plus those released, plus one if it was counted as a duplicate;
/// and no channel moves back or loses its place.
#[verifier::rlimit(40)]
#[verifier::spinoff_prover]
pub proof fn lemma_feed_conserves(st: ReorderState, cfg: Config, r: RecordView, bytes: int, now: u64)
    requires
        all_ok(st.channels),
        st.stats.duplicates < u64::MAX,
        st.stats.missing_source_seq < u64::MAX,
        bytes >= 0,
    ensures
        ({
            let fr = feed_result(st, cfg, r, bytes, now);
            &&& advanced(st.channels, fr.0.channels)
            &&& all_ok(fr.0.channels)
            &&& fr.1 matches Ok(out) ==> count(st.channels) + 1 == count(fr.0.channels) + out.len()
                + (fr.0.stats.duplicates - st.stats.duplicates)
        }),
{
    let chs = st.channels;
    let fr = feed_result(st, cfg, r, bytes, now);
    if !cfg.reorder || r.source_seq is None {
        return;
    }
    let seq = r.source_seq->0;
    let key = key_of(r);
    if seq == 0 || seq == u64::MAX || (find_key(chs, key) is None && chs.len() >= cfg.max_channels) {
        return;
    }
    let chs1 = feed_channels(chs, r).0;
    let k = feed_channels(chs, r).1;
    if find_key(chs, key) is None {
        lemma_count_push(chs, fresh_channel(key));
        assert forall|i: int| 0 <= i < chs1.len() implies channel_ok(#[trigger] chs1[i]) by {
            if i < chs.len() {
                assert(chs1[i] == chs[i]);
            }
        }
    } else {
        let w = choose|i: int| 0 <= i < chs.len() && chs[i].key == key;
        assert(0 <= w < chs.len() && chs[w].key == key);
    }
    assert(advanced(chs, chs1)) by {
        assert forall|i: int| 0 <= i < chs.len() implies {
            &&& (#[trigger] chs1[i]).key == chs[i].key
            &&& chs1[i].next >= chs[i].next
        } by {
            assert(chs1[i] == chs[i]);
        }
    }
    assert(0 <= k < chs1.len());
    assert(chs1[k].key == key);
    let c = chs1[k];
    assert(channel_ok(c));
    if seq < c.next || exists|i: int| 0 <= i < c.pending.len() && c.pending[i].seq == seq {
        assert(fr.0.channels == chs1);
        return;
    }
    if seq == c.next {
        let c2 = ChannelView { next: (seq + 1) as u64, ..c };
        assert(channel_ok(c2)) by {
            assert forall|i: int| 0 <= i < c2.pending.len() implies c2.next <= (#[trigger] c2.pending[i]).seq by {
                assert(c.pending[i].seq != seq);
            }
        }
        lemma_released(c2, false);
        lemma_release_counts(c2, false);
        lemma_count_update(chs1, k, released(c2, false));
        let u = chs1.update(k, released(c2, false));
        assert(fr.0.channels == u);
        assert forall|i: int| 0 <= i < u.len() implies channel_ok(#[trigger] u[i]) by {
            if i != k {
                assert(u[i] == chs1[i]);
            }
        }
        assert(advanced(chs1, u));
        lemma_advanced_trans(chs, chs1, u);
        return;
    }
    if bytes > cfg.max_bytes {
        return;
    }
    lemma_relieve_conserves(chs1, st.stats.skipped, cfg.max_records as int, cfg.max_bytes as int, bytes);
    let rl = relieve(chs1, st.stats.skipped, cfg.max_records as int, cfg.max_bytes as int, bytes);
    lemma_advanced_trans(chs, chs1, rl.0);
    if !rl.3 || seq < rl.0[k].next {
        return;
    }
    assert forall|i: int| 0 <= i < c.pending.len() implies #[trigger] c.pending[i].seq != seq by {}
    lemma_relieve_subset(chs1, st.stats.skipped, cfg.max_records as int, cfg.max_bytes as int, bytes, k, seq);
    let ck = rl.0[k];
    assert(channel_ok(ck));
    let q = QueuedView { seq, record: r, received: now, bytes };
    lemma_lower_count_sorted(ck.pending, seq);
    lemma_insert_ok(ck, q, lower_count(ck.pending, seq));
    let c3 = insert_pending(ck, q);
    lemma_released(c3, false);
    lemma_release_counts(c3, false);
    lemma_count_update(rl.0, k, released(c3, false));
    let u = rl.0.update(k, released(c3, false));
    assert(fr.0.channels == u);
    assert forall|i: int| 0 <= i < u.len() implies channel_ok(#[trigger] u[i]) by {
        if i != k {
            assert(u[i] == rl.0[i]);
        }
    }
    assert(advanced(rl.0, u));
    lemma_advanced_trans(chs, rl.0, u);
}

/// Law: a release hands out the channel's records in source order without a
/// gap: consecutive sequences from the release start, all of the channel, after
/// which the channel expects the sequence that follows the last one.
pub proof fn lemma_release_in_order(c: ChannelView, force: bool)
    requires
        channel_ok(c),
    ensures
        forall|i: int| 0 <= i < release_out(c, force).len() ==> {
            &&& (#[trigger] release_out(c, force)[i]).source_seq == Some((release_start(c, force) + i) as u64)
            &&& key_of(release_out(c, force)[i]) == c.key
        },
        released(c, force).next == release_start(c, force) + release_out(c, force).len(),
        force ==> release_start(c, force) >= c.next,
{
    lemma_released(c, force);
    lemma_run_len(c.pending, release_start(c, force));
    let n = run_len(c.pending, release_start(c, force));
    assert forall|i: int| 0 <= i < release_out(c, force).len() implies {
        &&& (#[trigger] release_out(c, force)[i]).source_seq == Some((release_start(c, force) + i) as u64)
        &&& key_of(release_out(c, force)[i]) == c.key
    } by {
        assert(release_out(c, force)[i] == c.pending[i].record);
    }
    if force && c.pending.len() > 0 {
        assert(c.pending[0].seq >= c.next);
    }
}


/// The ordering of released records: every record released with a source
/// sequence belongs to a channel of `after` (in the place it held in `before`,
/// if it was there), comes below the sequence that channel now expects and not
/// below the one it expected in `before`; records of one channel come out in
/// increasing source order.
pub open spec fn emits_in_order(before: Seq<ChannelView>, after: Seq<ChannelView>, out: Seq<RecordView>) -> bool {
    &&& forall|o: int| 0 <= o < out.len() && (#[trigger] out[o]).source_seq is Some ==> exists|i: int|
        0 <= i < after.len() && (#[trigger] after[i]).key == key_of(out[o]) && out[o].source_seq->0 < after[i].next
            && (i < before.len() ==> before[i].next <= out[o].source_seq->0)
    &&& forall|a: int, b: int| #![trigger out[a], out[b]]
        0 <= a < b < out.len() && out[a].source_seq is Some && out[b].source_seq is Some && key_of(out[a]) == key_of(out[b])
            ==> out[a].source_seq->0 < out[b].source_seq->0
}

/// Law: two releases in turn keep the ordering: what the first released
/// comes below what the second releases of the same channel. So, over any
/// sequence of calls, each channel's source sequences come out strictly
/// increasing, none twice.
pub proof fn lemma_emits_compose(
    a: Seq<ChannelView>,
    b: Seq<ChannelView>,
    c: Seq<ChannelView>,
    o1: Seq<RecordView>,
    o2: Seq<RecordView>,
)
    requires
        advanced(a, b),
        advanced(b, c),
        keys_distinct(c),
        emits_in_order(a, b, o1),
        emits_in_order(b, c, o2),
    ensures
        emits_in_order(a, c, o1 + o2),
{
    let o = o1 + o2;
    assert forall|x: int| 0 <= x < o.len() && (#[trigger] o[x]).source_seq is Some implies exists|i: int|
        0 <= i < c.len() && (#[trigger] c[i]).key == key_of(o[x]) && o[x].source_seq->0 < c[i].next
            && (i < a.len() ==> a[i].next <= o[x].source_seq->0) by {
        if x < o1.len() {
            assert(o[x] == o1[x]);
            let i = choose|i: int| 0 <= i < b.len() && (#[trigger] b[i]).key == key_of(o1[x]) && o1[x].source_seq->0 < b[i].next
                && (i < a.len() ==> a[i].next <= o1[x].source_seq->0);
            assert(c[i].key == b[i].key);
        } else {
            let y = x - o1.len();
            assert(o[x] == o2[y]);
            let j = choose|j: int| 0 <= j < c.len() && (#[trigger] c[j]).key == key_of(o2[y]) && o2[y].source_seq->0 < c[j].next
                && (j < b.len() ==> b[j].next <= o2[y].source_seq->0);
            if j < a.len() {
                assert(b[j].key == a[j].key);
            }
        }
    }
    assert forall|x: int, y: int| #![trigger o[x], o[y]]
        0 <= x < y < o.len() && o[x].source_seq is Some && o[y].source_seq is Some && key_of(o[x]) == key_of(o[y])
            implies o[x].source_seq->0 < o[y].source_seq->0 by {
        if y < o1.len() {
            assert(o[x] == o1[x] && o[y] == o1[y]);
        } else if x >= o1.len() {
            assert(o[x] == o2[x - o1.len()] && o[y] == o2[y - o1.len()]);
        } else {
            assert(o[x] == o1[x]);
            let v = y - o1.len();
            assert(o[y] == o2[v]);
            let i = choose|i: int| 0 <= i < b.len() && (#[trigger] b[i]).key == key_of(o1[x]) && o1[x].source_seq->0 < b[i].next
                && (i < a.len() ==> a[i].next <= o1[x].source_seq->0);
            let j = choose|j: int| 0 <= j < c.len() && (#[trigger] c[j]).key == key_of(o2[v]) && o2[v].source_seq->0 < c[j].next
                && (j < b.len() ==> b[j].next <= o2[v].source_seq->0);
            assert(c[i].key == b[i].key);
            if i != j {
                if i < j {
                    assert(c[i].key != c[j].key);
                } else {
                    assert(c[j].key != c[i].key);
                }
            }
        }
    }
}

/// Releasing nothing keeps the ordering.
proof fn lemma_emits_nothing(a: Seq<ChannelView>, b: Seq<ChannelView>)
    ensures
        emits_in_order(a, b, Seq::empty()),
{
}

/// One release of channel `c` in place `k`, whose expected sequence is not
/// below the one `x` holds there, keeps the ordering and moves nothing back.
proof fn lemma_release_emits(x: Seq<ChannelView>, k: int, c: ChannelView, force: bool)
    requires
        0 <= k < x.len(),
        channel_ok(c),
        c.key == x[k].key,
        x[k].next <= c.next,
    ensures
        emits_in_order(x, x.update(k, released(c, force)), release_out(c, force)),
        advanced(x, x.update(k, released(c, force))),
        keys_distinct(x) ==> keys_distinct(x.update(k, released(c, force))),
{
    lemma_release_in_order(c, force);
    lemma_released(c, force);
    let y = x.update(k, released(c, force));
    let out = release_out(c, force);
    let start = release_start(c, force);
    assert(start >= c.next) by {
        if force && c.pending.len() > 0 {
            assert(c.pending[0].seq >= c.next);
        }
    }
    assert forall|o: int| 0 <= o < out.len() && (#[trigger] out[o]).source_seq is Some implies exists|i: int|
        0 <= i < y.len() && (#[trigger] y[i]).key == key_of(out[o]) && out[o].source_seq->0 < y[i].next
            && (i < x.len() ==> x[i].next <= out[o].source_seq->0) by {
        assert(y[k].key == key_of(out[o]));
    }
    assert forall|i: int| 0 <= i < x.len() implies {
        &&& (#[trigger] y[i]).key == x[i].key
        &&& y[i].next >= x[i].next
    } by {}
    if keys_distinct(x) {
        assert forall|i: int, j: int| 0 <= i < j < y.len() implies y[i].key != y[j].key by {
            assert(y[i].key == x[i].key && y[j].key == x[j].key);
        }
    }
}

proof fn lemma_advanced_refl(a: Seq<ChannelView>)
    ensures
        advanced(a, a),
{
}

/// Relieving keeps the ordering and the distinct channel keys.
proof fn lemma_relieve_emits(chs: Seq<ChannelView>, skipped: u64, max_records: int, max_bytes: int, need: int)
    requires
        all_ok(chs),
        keys_distinct(chs),
    ensures
        ({
            let r = relieve(chs, skipped, max_records, max_bytes, need);
            &&& emits_in_order(chs, r.0, r.2)
            &&& keys_distinct(r.0)
        }),
    decreases count(chs),
{
    lemma_relieve_conserves(chs, skipped, max_records, max_bytes, need);
    if count(chs) >= max_records || weight(chs) + need > max_bytes {
        lemma_oldest_is_oldest(chs);
        match oldest_channel(chs) {
            None => {},
            Some(k) => {
                let u = chs.update(k, released(chs[k], true));
                lemma_forced_step(chs, k);
                lemma_release_emits(chs, k, chs[k], true);
                lemma_count_bounds(chs);
                lemma_count_bounds(u);
                lemma_run_len(chs[k].pending, release_start(chs[k], true));
                let sk = sat_add(skipped, release_skip(chs[k], true));
                lemma_relieve_emits(u, sk, max_records, max_bytes, need);
                lemma_relieve_conserves(u, sk, max_records, max_bytes, need);
                let r = relieve(u, sk, max_records, max_bytes, need);
                lemma_emits_compose(chs, u, r.0, release_out(chs[k], true), r.2);
            },
        }
    }
}

/// Law: expiring or flushing releases each channel's records in increasing
/// source order, above what it released before, and keeps channel keys distinct.
pub proof fn lemma_expired_emits(chs: Seq<ChannelView>, skipped: u64, now: u64, delay: int)
    requires
        all_ok(chs),
        keys_distinct(chs),
    ensures
        ({
            let r = expired(chs, skipped, now, delay);
            &&& emits_in_order(chs, r.0, r.2)
            &&& keys_distinct(r.0)
            &&& advanced(chs, r.0)
        }),
    decreases count(chs),
{
    lemma_expired_conserves(chs, skipped, now, delay);
    lemma_oldest_is_oldest(chs);
    match oldest_channel(chs) {
        None => {},
        Some(k) => {
            if age(now, min_received(chs[k].pending)) >= delay {
                let u = chs.update(k, released(chs[k], true));
                lemma_forced_step(chs, k);
                lemma_release_emits(chs, k, chs[k], true);
                lemma_count_bounds(chs);
                lemma_count_bounds(u);
                lemma_run_len(chs[k].pending, release_start(chs[k], true));
                let sk = sat_add(skipped, release_skip(chs[k], true));
                lemma_expired_emits(u, sk, now, delay);
                lemma_expired_conserves(u, sk, now, delay);
                let r = expired(u, sk, now, delay);
                lemma_emits_compose(chs, u, r.0, release_out(chs[k], true), r.2);
            }
        },
    }
}

/// What a feed hands out: the released records, or nothing when it is refused.
pub open spec fn fed_out(fr: (ReorderState, Result<Seq<RecordView>, ReorderError>)) -> Seq<RecordView> {
    match fr.1 {
        Ok(out) => out,
        Err(_) => Seq::empty(),
    }
}

/// Law: feeding a reordering processor releases each channel's records in
/// increasing source order, above everything the channel released before, and
/// keeps channel keys distinct; with `lemma_emits_compose` this holds over any
/// run of feeds, expiries and flushes.
#[verifier::rlimit(60)]
#[verifier::spinoff_prover]
pub proof fn lemma_feed_emits(st: ReorderState, cfg: Config, r: RecordView, bytes: int, now: u64)
    requires
        cfg.reorder,
        all_ok(st.channels),
        keys_distinct(st.channels),
        st.stats.duplicates < u64::MAX,
        st.stats.missing_source_seq < u64::MAX,
        bytes >= 0,
    ensures
        ({
            let fr = feed_result(st, cfg, r, bytes, now);
            &&& emits_in_order(st.channels, fr.0.channels, fed_out(fr))
            &&& keys_distinct(fr.0.channels)
            &&& advanced(st.channels, fr.0.channels)
        }),
{
    let chs = st.channels;
    let fr = feed_result(st, cfg, r, bytes, now);
    lemma_feed_conserves(st, cfg, r, bytes, now);
    if r.source_seq is None {
        assert(fr.0.channels == chs);
        assert(fed_out(fr) == seq![r]);
        assert forall|o: int| 0 <= o < fed_out(fr).len() implies !((#[trigger] fed_out(fr)[o]).source_seq is Some) by {
            assert(fed_out(fr)[o] == r);
        }
        return;
    }
    let seq = r.source_seq->0;
    let key = key_of(r);
    if seq == 0 || seq == u64::MAX || (find_key(chs, key) is None && chs.len() >= cfg.max_channels) {
        lemma_advanced_refl(chs);
        return;
    }
    let chs1 = feed_channels(chs, r).0;
    let k = feed_channels(chs, r).1;
    if find_key(chs, key) is None {
        assert forall|i: int, j: int| 0 <= i < j < chs1.len() implies chs1[i].key != chs1[j].key by {
            if j == chs.len() {
                assert(chs1[i] == chs[i]);
            } else {
                assert(chs1[i] == chs[i] && chs1[j] == chs[j]);
            }
        }
        assert forall|i: int| 0 <= i < chs1.len() implies channel_ok(#[trigger] chs1[i]) by {
            if i < chs.len() {
                assert(chs1[i] == chs[i]);
            }
        }
    } else {
        let w = choose|i: int| 0 <= i < chs.len() && chs[i].key == key;
        assert(0 <= w < chs.len() && chs[w].key == key);
    }
    assert(advanced(chs, chs1)) by {
        assert forall|i: int| 0 <= i < chs.len() implies {
            &&& (#[trigger] chs1[i]).key == chs[i].key
            &&& chs1[i].next >= chs[i].next
        } by {
            assert(chs1[i] == chs[i]);
        }
    }
    assert(0 <= k < chs1.len());
    assert(chs1[k].key == key);
    let c = chs1[k];
    assert(channel_ok(c));
    if seq < c.next || exists|i: int| 0 <= i < c.pending.len() && c.pending[i].seq == seq {
        assert(fr.0.channels == chs1);
        return;
    }
    if seq == c.next {
        let c2 = ChannelView { next: (seq + 1) as u64, ..c };
        assert(channel_ok(c2)) by {
            assert forall|i: int| 0 <= i < c2.pending.len() implies c2.next <= (#[trigger] c2.pending[i]).seq by {
                assert(c.pending[i].seq != seq);
            }
        }
        let m = chs1.update(k, c2);
        assert(keys_distinct(m)) by {
            assert forall|i: int, j: int| 0 <= i < j < m.len() implies m[i].key != m[j].key by {
                assert(m[i].key == chs1[i].key && m[j].key == chs1[j].key);
            }
        }
        assert(advanced(chs1, m));
        assert(emits_in_order(chs1, m, seq![r])) by {
            assert forall|o: int| 0 <= o < 1 && (#[trigger] seq![r][o]).source_seq is Some implies exists|i: int|
                0 <= i < m.len() && (#[trigger] m[i]).key == key_of(seq![r][o]) && seq![r][o].source_seq->0 < m[i].next
                    && (i < chs1.len() ==> chs1[i].next <= seq![r][o].source_seq->0) by {
                assert(seq![r][o] == r);
                assert(m[k].key == key);
            }
        }
        lemma_release_emits(m, k, c2, false);
        let u = m.update(k, released(c2, false));
        assert(u =~= chs1.update(k, released(c2, false)));
        assert(fr.0.channels == u);
        assert(fed_out(fr) == seq![r] + release_out(c2, false));
        lemma_emits_compose(chs1, m, u, seq![r], release_out(c2, false));
        lemma_emits_nothing(chs, chs1);
        lemma_emits_compose(chs, chs1, u, Seq::empty(), fed_out(fr));
        assert(Seq::<RecordView>::empty() + fed_out(fr) =~= fed_out(fr));
        return;
    }
    if bytes > cfg.max_bytes {
        return;
    }
    lemma_relieve_conserves(chs1, st.stats.skipped, cfg.max_records as int, cfg.max_bytes as int, bytes);
    lemma_relieve_emits(chs1, st.stats.skipped, cfg.max_records as int, cfg.max_bytes as int, bytes);
    let rl = relieve(chs1, st.stats.skipped, cfg.max_records as int, cfg.max_bytes as int, bytes);
    lemma_advanced_trans(chs, chs1, rl.0);
    lemma_emits_nothing(chs, chs1);
    lemma_emits_compose(chs, chs1, rl.0, Seq::empty(), rl.2);
    assert(Seq::<RecordView>::empty() + rl.2 =~= rl.2);
    if !rl.3 {
        return;
    }
    if seq < rl.0[k].next {
        return;
    }
    assert forall|i: int| 0 <= i < c.pending.len() implies #[trigger] c.pending[i].seq != seq by {}
    lemma_relieve_subset(chs1, st.stats.skipped, cfg.max_records as int, cfg.max_bytes as int, bytes, k, seq);
    let ck = rl.0[k];
    assert(channel_ok(ck));
    let q = QueuedView { seq, record: r, received: now, bytes };
    lemma_lower_count_sorted(ck.pending, seq);
    lemma_insert_ok(ck, q, lower_count(ck.pending, seq));
    let c3 = insert_pending(ck, q);
    lemma_release_emits(rl.0, k, c3, false);
    let u = rl.0.update(k, released(c3, false));
    assert(fr.0.channels == u);
    assert(fed_out(fr) == rl.2 + release_out(c3, false));
    lemma_emits_compose(chs, rl.0, u, rl.2, release_out(c3, false));
    lemma_advanced_trans(chs, rl.0, u);
}


/// Law, for a real processor: a feed releases each channel's records in
/// increasing source order, above everything the channel released before;
/// expiring and flushing do the same. Joined by `lemma_emits_compose`, each
/// channel's source sequences come out strictly increasing over any run of
/// calls on the processor.
pub proof fn lemma_processor_emits_in_order(p: &crate::reorder::Processor, r: RecordView, bytes: int, now: u64)
    requires
        p.wf(),
        p.spec_config().reorder,
        p.state().stats.duplicates < u64::MAX,
        p.state().stats.missing_source_seq < u64::MAX,
        bytes >= 0,
    ensures
        ({
            let fr = feed_result(p.state(), p.spec_config(), r, bytes, now);
            &&& emits_in_order(p.spec_channels(), fr.0.channels, fed_out(fr))
            &&& advanced(p.spec_channels(), fr.0.channels)
        }),
        forall|d: int| #![trigger expired(p.spec_channels(), p.state().stats.skipped, now, d)] emits_in_order(
            p.spec_channels(),
            expired(p.spec_channels(), p.state().stats.skipped, now, d).0,
            expired(p.spec_channels(), p.state().stats.skipped, now, d).2,
        ) && advanced(p.spec_channels(), expired(p.spec_channels(), p.state().stats.skipped, now, d).0),
{
    p.lemma_channels_ok();
    lemma_feed_emits(p.state(), p.spec_config(), r, bytes, now);
    assert forall|d: int| #![trigger expired(p.spec_channels(), p.state().stats.skipped, now, d)] emits_in_order(
        p.spec_channels(),
        expired(p.spec_channels(), p.state().stats.skipped, now, d).0,
        expired(p.spec_channels(), p.state().stats.skipped, now, d).2,
    ) && advanced(p.spec_channels(), expired(p.spec_channels(), p.state().stats.skipped, now, d).0) by {
        lemma_expired_emits(p.spec_channels(), p.state().stats.skipped, now, d);
    }
}

} // verus!
