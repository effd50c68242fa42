//! Bookkeeping of tracked objects from frame to frame: which detection
//! continues which track, which detections open new tracks, and which
//! unmatched tracks are kept as ghosts through short occlusions.
use vstd::prelude::*;

verus! {

/// Frames a track may go unmatched and still be kept.
pub const MAX_LOST_FRAMES: usize = 5;

/// A live track: its id and the number of consecutive frames in which no
/// detection matched it.
#[derive(Clone, Copy, Debug, PartialEq, Eq, Structural)]
pub struct TrackEntry {
    pub id: usize,
    pub lost_frames: usize,
}

/// What became of one detection: it continued the existing track with the
/// given id, or it opened a new track with the given id.
#[derive(Clone, Copy, Debug, PartialEq, Eq, Structural)]
pub enum Assignment {
    Matched(usize),
    Registered(usize),
}

/// The track id carried by an assignment.
pub open spec fn assigned_id(a: Assignment) -> usize {
    match a {
        Assignment::Matched(t) => t,
        Assignment::Registered(t) => t,
    }
}

impl Assignment {
    /// The track id that the detection belongs to after the frame.
    pub fn id(&self) -> (r: usize)
        ensures
            r == assigned_id(*self),
    {
        match self {
            Assignment::Matched(t) => *t,
            Assignment::Registered(t) => *t,
        }
    }
}

/// The outcome of one frame: an assignment per detection, in the order of
/// the detections, and the unmatched tracks kept as ghosts, with their
/// increased lost-frame counts.
pub struct FramePlan {
    pub assignments: Vec<Assignment>,
    pub ghosts: Vec<TrackEntry>,
}

/// Abstract state of a track table.
pub struct TableView {
    pub next_id: nat,
    pub tracks: Seq<TrackEntry>,
}

/// `id` is the id of one of the tracks.
pub open spec fn is_live(tracks: Seq<TrackEntry>, id: usize) -> bool {
    exists|i: int| 0 <= i < tracks.len() && #[trigger] tracks[i].id == id
}

/// The first id in `pref` that names a live track not yet taken.
pub open spec fn first_free(pref: Seq<usize>, tracks: Seq<TrackEntry>, taken: Seq<Option<usize>>) -> Option<usize>
    decreases pref.len(),
{
    if pref.len() == 0 {
        None
    } else if is_live(tracks, pref[0]) && !taken.contains(Some(pref[0])) {
        Some(pref[0])
    } else {
        first_free(pref.drop_first(), tracks, taken)
    }
}

/// The track each detection takes over, detections in order: detection `i`
/// takes the first track of its preference list that no earlier detection
/// took, or none.
pub open spec fn claims(tracks: Seq<TrackEntry>, prefs: Seq<Vec<usize>>) -> Seq<Option<usize>>
    decreases prefs.len(),
{
    if prefs.len() == 0 {
        Seq::empty()
    } else {
        let prev = claims(tracks, prefs.drop_last());
        prev.push(first_free(prefs.last()@, tracks, prev))
    }
}

/// Number of detections that took over no track.
pub open spec fn fresh_count(c: Seq<Option<usize>>) -> nat
    decreases c.len(),
{
    if c.len() == 0 {
        0
    } else {
        fresh_count(c.drop_last()) + if c.last() is None {
            1nat
        } else {
            0nat
        }
    }
}

/// The assignment of detection `i`: its claimed track, or the next unused
/// id, ids being handed out in detection order.
pub open spec fn assignment_of(next_id: nat, c: Seq<Option<usize>>, i: int) -> Assignment {
    match c[i] {
        Some(t) => Assignment::Matched(t),
        None => Assignment::Registered((next_id + fresh_count(c.take(i))) as usize),
    }
}

/// The assignments of all detections.
pub open spec fn assignments_of(next_id: nat, c: Seq<Option<usize>>) -> Seq<Assignment> {
    Seq::new(c.len(), |i: int| assignment_of(next_id, c, i))
}

/// The tracks that go on unmatched: those not claimed whose lost count is
/// below the limit, in table order, each with its count raised by one.
pub open spec fn ghosts_of(tracks: Seq<TrackEntry>, c: Seq<Option<usize>>) -> Seq<TrackEntry>
    decreases tracks.len(),
{
    if tracks.len() == 0 {
        Seq::empty()
    } else {
        let g = ghosts_of(tracks.drop_last(), c);
        let t = tracks.last();
        if !c.contains(Some(t.id)) && t.lost_frames < MAX_LOST_FRAMES {
            g.push(TrackEntry { id: t.id, lost_frames: (t.lost_frames + 1) as usize })
        } else {
            g
        }
    }
}

/// The tracks of the detections after a frame, all with a lost count of 0.
pub open spec fn seen_tracks(a: Seq<Assignment>) -> Seq<TrackEntry> {
    Seq::new(a.len(), |i: int| TrackEntry { id: assigned_id(a[i]), lost_frames: 0 })
}

/// The table after a frame whose detections have the preference lists
/// `prefs`.
pub open spec fn step_table(v: TableView, prefs: Seq<Vec<usize>>) -> TableView {
    let c = claims(v.tracks, prefs);
    TableView {
        next_id: v.next_id + fresh_count(c),
        tracks: seen_tracks(assignments_of(v.next_id, c)) + ghosts_of(v.tracks, c),
    }
}

/// A well-formed table: distinct ids, all below the next id to hand out,
/// and no lost count above the limit.
pub open spec fn table_wf(v: TableView) -> bool {
    &&& forall|i: int, j: int|
        0 <= i < j < v.tracks.len() ==> #[trigger] v.tracks[i].id != #[trigger] v.tracks[j].id
    &&& forall|i: int| 0 <= i < v.tracks.len() ==> #[trigger] v.tracks[i].id < v.next_id
    &&& forall|i: int| 0 <= i < v.tracks.len() ==> #[trigger] v.tracks[i].lost_frames <= MAX_LOST_FRAMES
}

/// The frame's new tracks all get ids that fit in a machine word; a frame
/// that would need more ids is refused.
pub open spec fn step_fits(v: TableView, prefs: Seq<Vec<usize>>) -> bool {
    v.next_id + fresh_count(claims(v.tracks, prefs)) <= usize::MAX
}

/// The ids of the tracked objects and how long each has gone unmatched.
pub struct TrackTable {
    next_id: usize,
    tracks: Vec<TrackEntry>,
}

impl View for TrackTable {
    type V = TableView;

    closed spec fn view(&self) -> TableView {
        TableView { next_id: self.next_id as nat, tracks: self.tracks@ }
    }
}

// ---------------------------------------------------------------------------
// Lemmas on the frame step
// ---------------------------------------------------------------------------

proof fn lemma_first_free(pref: Seq<usize>, tracks: Seq<TrackEntry>, taken: Seq<Option<usize>>)
    ensures
        first_free(pref, tracks, taken) matches Some(x) ==> is_live(tracks, x) && !taken.contains(
            Some(x),
        ) && pref.contains(x),
    decreases pref.len(),
{
    if pref.len() > 0 {
        lemma_first_free(pref.drop_first(), tracks, taken);
        if let Some(x) = first_free(pref.drop_first(), tracks, taken) {
            if !(is_live(tracks, pref[0]) && !taken.contains(Some(pref[0]))) {
                let k = choose|k: int| 0 <= k < pref.drop_first().len() && pref.drop_first()[k] == x;
                assert(pref[k + 1] == x);
            }
        }
    }
}

proof fn lemma_claims(tracks: Seq<TrackEntry>, prefs: Seq<Vec<usize>>)
    ensures
        claims(tracks, prefs).len() == prefs.len(),
        forall|i: int|
            0 <= i < prefs.len() ==> (#[trigger] claims(tracks, prefs)[i] matches Some(x)
                ==> is_live(tracks, x) && prefs[i]@.contains(x)),
        forall|i: int, j: int|
            0 <= i < j < prefs.len() && claims(tracks, prefs)[i] is Some ==> #[trigger] claims(
                tracks,
                prefs,
            )[i] != #[trigger] claims(tracks, prefs)[j],
    decreases prefs.len(),
{
    if prefs.len() > 0 {
        let prev = claims(tracks, prefs.drop_last());
        lemma_claims(tracks, prefs.drop_last());
        lemma_first_free(prefs.last()@, tracks, prev);
        let c = claims(tracks, prefs);
        assert forall|i: int| 0 <= i < prefs.len() implies (#[trigger] c[i] matches Some(x)
            ==> is_live(tracks, x) && prefs[i]@.contains(x)) by {
            if i < prefs.len() - 1 {
                assert(c[i] == prev[i]);
                assert(prefs[i] == prefs.drop_last()[i]);
            }
        }
        assert forall|i: int, j: int|
            0 <= i < j < prefs.len() && c[i] is Some implies #[trigger] c[i] != #[trigger] c[j] by {
            assert(c[i] == prev[i]);
            if j == prefs.len() - 1 {
                if c[i] == c[j] {
                    assert(prev.contains(c[i]));
                }
            } else {
                assert(c[j] == prev[j]);
            }
        }
    }
}

proof fn lemma_fresh_count_step(c: Seq<Option<usize>>, i: int)
    requires
        0 <= i < c.len(),
    ensures
        fresh_count(c.take(i + 1)) == fresh_count(c.take(i)) + if c[i] is None {
            1nat
        } else {
            0nat
        },
{
    assert(c.take(i + 1).drop_last() =~= c.take(i));
}

proof fn lemma_fresh_count_mono(c: Seq<Option<usize>>, i: int, j: int)
    requires
        0 <= i <= j <= c.len(),
    ensures
        fresh_count(c.take(i)) <= fresh_count(c.take(j)),
        fresh_count(c.take(j)) <= fresh_count(c.take(i)) + (j - i),
    decreases j - i,
{
    if i < j {
        lemma_fresh_count_mono(c, i, j - 1);
        lemma_fresh_count_step(c, j - 1);
    }
}

proof fn lemma_fresh_count_full(c: Seq<Option<usize>>)
    ensures
        fresh_count(c) <= c.len(),
        fresh_count(c.take(c.len() as int)) == fresh_count(c),
{
    assert(c.take(c.len() as int) =~= c);
    lemma_fresh_count_mono(c, 0, c.len() as int);
    assert(c.take(0) =~= Seq::<Option<usize>>::empty());
}

proof fn lemma_ghosts(tracks: Seq<TrackEntry>, c: Seq<Option<usize>>)
    ensures
        forall|k: int|
            0 <= k < ghosts_of(tracks, c).len() ==> exists|i: int|
                0 <= i < tracks.len() && #[trigger] ghosts_of(tracks, c)[k].id == tracks[i].id
                    && tracks[i].lost_frames < MAX_LOST_FRAMES && ghosts_of(tracks, c)[k].lost_frames
                    == tracks[i].lost_frames + 1,
        forall|k: int|
            0 <= k < ghosts_of(tracks, c).len() ==> !c.contains(
                Some(#[trigger] ghosts_of(tracks, c)[k].id),
            ),
        (forall|i: int, j: int|
            0 <= i < j < tracks.len() ==> #[trigger] tracks[i].id != #[trigger] tracks[j].id) ==> (
        forall|k: int, l: int|
            0 <= k < l < ghosts_of(tracks, c).len() ==> #[trigger] ghosts_of(tracks, c)[k].id
                != #[trigger] ghosts_of(tracks, c)[l].id),
    decreases tracks.len(),
{
    if tracks.len() > 0 {
        let rest = tracks.drop_last();
        lemma_ghosts(rest, c);
        let g = ghosts_of(rest, c);
        let gn = ghosts_of(tracks, c);
        assert forall|k: int| 0 <= k < gn.len() implies exists|i: int|
            0 <= i < tracks.len() && #[trigger] gn[k].id == tracks[i].id && tracks[i].lost_frames
                < MAX_LOST_FRAMES && gn[k].lost_frames == tracks[i].lost_frames + 1 by {
            if k < g.len() {
                assert(gn[k] == g[k]);
                let i = choose|i: int|
                    0 <= i < rest.len() && #[trigger] g[k].id == rest[i].id && rest[i].lost_frames
                        < MAX_LOST_FRAMES && g[k].lost_frames == rest[i].lost_frames + 1;
                assert(rest[i] == tracks[i]);
            } else {
                assert(gn[k].id == tracks[tracks.len() - 1].id);
            }
        }
        assert forall|k: int| 0 <= k < gn.len() implies !c.contains(Some(#[trigger] gn[k].id)) by {
            if k < g.len() {
                assert(gn[k] == g[k]);
            }
        }
        if forall|i: int, j: int|
            0 <= i < j < tracks.len() ==> #[trigger] tracks[i].id != #[trigger] tracks[j].id {
            assert forall|i: int, j: int|
                0 <= i < j < rest.len() implies #[trigger] rest[i].id != #[trigger] rest[j].id by {
                assert(rest[i] == tracks[i] && rest[j] == tracks[j]);
            }
            assert forall|k: int, l: int| 0 <= k < l < gn.len() implies #[trigger] gn[k].id
                != #[trigger] gn[l].id by {
                assert(gn[k] == g[k]);
                if l < g.len() {
                    assert(gn[l] == g[l]);
                } else {
                    let i = choose|i: int|
                        0 <= i < rest.len() && #[trigger] g[k].id == rest[i].id
                            && rest[i].lost_frames < MAX_LOST_FRAMES && g[k].lost_frames
                            == rest[i].lost_frames + 1;
                    assert(rest[i] == tracks[i]);
                    assert(tracks[i].id != tracks[tracks.len() - 1].id);
                }
            }
        }
    }
}

proof fn lemma_first_free_is_first(pref: Seq<usize>, tracks: Seq<TrackEntry>, taken: Seq<Option<usize>>)
    ensures
        (forall|j: int|
            0 <= j < pref.len() ==> !(is_live(tracks, #[trigger] pref[j]) && !taken.contains(
                Some(pref[j]),
            ))) ==> first_free(pref, tracks, taken) is None,
        forall|j: int|
            0 <= j < pref.len() && is_live(tracks, #[trigger] pref[j]) && !taken.contains(Some(pref[j]))
                && (forall|j2: int|
                0 <= j2 < j ==> !(is_live(tracks, pref[j2]) && !taken.contains(Some(pref[j2]))))
                ==> first_free(pref, tracks, taken) == Some(pref[j]),
    decreases pref.len(),
{
    if pref.len() > 0 {
        let rest = pref.drop_first();
        lemma_first_free_is_first(rest, tracks, taken);
        assert forall|j: int|
            0 <= j < pref.len() && is_live(tracks, #[trigger] pref[j]) && !taken.contains(Some(pref[j]))
                && (forall|j2: int|
                0 <= j2 < j ==> !(is_live(tracks, pref[j2]) && !taken.contains(Some(pref[j2]))))
                implies first_free(pref, tracks, taken) == Some(pref[j]) by {
            if j > 0 {
                assert(!(is_live(tracks, pref[0]) && !taken.contains(Some(pref[0]))));
                assert(rest[j - 1] == pref[j]);
                assert forall|j2: int| 0 <= j2 < j - 1 implies !(is_live(tracks, rest[j2])
                    && !taken.contains(Some(rest[j2]))) by {
                    assert(rest[j2] == pref[j2 + 1]);
                }
            }
        }
        if forall|j: int|
            0 <= j < pref.len() ==> !(is_live(tracks, #[trigger] pref[j]) && !taken.contains(
                Some(pref[j]),
            )) {
            assert forall|j: int|
                0 <= j < rest.len() implies !(is_live(tracks, #[trigger] rest[j]) && !taken.contains(
                Some(rest[j]),
            )) by {
                assert(rest[j] == pref[j + 1]);
            }
            assert(!(is_live(tracks, pref[0]) && !taken.contains(Some(pref[0]))));
        }
    }
}

proof fn lemma_claim_of_detection(tracks: Seq<TrackEntry>, prefs: Seq<Vec<usize>>, i: int)
    requires
        0 <= i < prefs.len(),
    ensures
        claims(tracks, prefs)[i] == first_free(prefs[i]@, tracks, claims(tracks, prefs).take(i)),
    decreases prefs.len(),
{
    let prev = claims(tracks, prefs.drop_last());
    lemma_claims(tracks, prefs.drop_last());
    let c = claims(tracks, prefs);
    if i == prefs.len() - 1 {
        assert(c.take(i) =~= prev);
    } else {
        lemma_claim_of_detection(tracks, prefs.drop_last(), i);
        assert(c.take(i) =~= prev.take(i));
        assert(prefs.drop_last()[i] == prefs[i]);
    }
}

/// Track `x` is free for detection `i`: some track of the table has id
/// `x`, and no detection before `i` was matched to it.
pub open spec fn free_for(tracks: Seq<TrackEntry>, a: Seq<Assignment>, i: int, x: usize) -> bool {
    &&& exists|k: int| 0 <= k < tracks.len() && tracks[k].id == x
    &&& forall|e: int| 0 <= e < i ==> a[e] != Assignment::Matched(x)
}

/// Matching of one detection, in terms of its preference list: if the list
/// names a track free for the detection, the detection is matched to the
/// first free track it lists; if it names none, the detection opens a new
/// track.
pub proof fn law_detection_takes_first_free_listed_track(
    v: TableView,
    prefs: Seq<Vec<usize>>,
    i: int,
)
    requires
        0 <= i < prefs.len(),
    ensures
        ({
            let a = assignments_of(v.next_id, claims(v.tracks, prefs));
            let pref = prefs[i]@;
            &&& (forall|j: int| 0 <= j < pref.len() ==> !#[trigger] free_for(v.tracks, a, i, pref[j]))
                ==> a[i] is Registered
            &&& forall|j: int|
                0 <= j < pref.len() && #[trigger] free_for(v.tracks, a, i, pref[j]) && (forall|j2: int|
                    0 <= j2 < j ==> !free_for(v.tracks, a, i, pref[j2])) ==> a[i]
                    == Assignment::Matched(pref[j])
        }),
{
    let c = claims(v.tracks, prefs);
    let a = assignments_of(v.next_id, c);
    let pref = prefs[i]@;
    let taken = c.take(i);
    lemma_claims(v.tracks, prefs);
    lemma_claim_of_detection(v.tracks, prefs, i);
    lemma_first_free_is_first(pref, v.tracks, taken);
    // "free" is "live and not taken".
    assert forall|x: usize| #[trigger] free_for(v.tracks, a, i, x) == (is_live(v.tracks, x)
        && !taken.contains(Some(x))) by {
        if taken.contains(Some(x)) {
            let e = choose|e: int| 0 <= e < taken.len() && taken[e] == Some(x);
            assert(a[e] == assignment_of(v.next_id, c, e));
        }
        if exists|e: int| 0 <= e < i && a[e] == Assignment::Matched(x) {
            let e = choose|e: int| 0 <= e < i && a[e] == Assignment::Matched(x);
            assert(a[e] == assignment_of(v.next_id, c, e));
            assert(taken[e] == c[e]);
        }
    }
    assert(a[i] == assignment_of(v.next_id, c, i));
    if forall|j: int| 0 <= j < pref.len() ==> !#[trigger] free_for(v.tracks, a, i, pref[j]) {
        assert forall|j: int| 0 <= j < pref.len() implies !(is_live(v.tracks, #[trigger] pref[j])
            && !taken.contains(Some(pref[j]))) by {
            assert(!free_for(v.tracks, a, i, pref[j]));
        }
    }
    assert forall|j: int|
        0 <= j < pref.len() && #[trigger] free_for(v.tracks, a, i, pref[j]) && (forall|j2: int|
            0 <= j2 < j ==> !free_for(v.tracks, a, i, pref[j2])) implies a[i]
        == Assignment::Matched(pref[j]) by {
        assert forall|j2: int| 0 <= j2 < j implies !(is_live(v.tracks, pref[j2]) && !taken.contains(
            Some(pref[j2]),
        )) by {
            assert(!free_for(v.tracks, a, i, pref[j2]));
        }
        assert(is_live(v.tracks, pref[j]) && !taken.contains(Some(pref[j])));
    }
}

/// A frame step keeps a table well formed: ids stay distinct and below the
/// next id, and no lost count exceeds the limit.
pub proof fn law_step_keeps_table_wf(v: TableView, prefs: Seq<Vec<usize>>)
    requires
        table_wf(v),
        step_fits(v, prefs),
    ensures
        table_wf(step_table(v, prefs)),
{
    let c = claims(v.tracks, prefs);
    let a = assignments_of(v.next_id, c);
    let s = seen_tracks(a);
    let g = ghosts_of(v.tracks, c);
    let nv = step_table(v, prefs);
    let t = nv.tracks;
    lemma_claims(v.tracks, prefs);
    lemma_ghosts(v.tracks, c);
    lemma_fresh_count_full(c);
    assert(t =~= s + g);

    // every seen id is either a live (old) id or a fresh one
    assert forall|i: int| 0 <= i < s.len() implies (c[i] matches Some(x) ==> #[trigger] s[i].id == x
        && x < v.next_id) && (c[i] is None ==> s[i].id == v.next_id + fresh_count(c.take(i)) && s[i].id
        < nv.next_id) by {
        lemma_fresh_count_mono(c, i + 1, c.len() as int);
        lemma_fresh_count_step(c, i);
        if let Some(x) = c[i] {
            assert(is_live(v.tracks, x));
            let k = choose|k: int| 0 <= k < v.tracks.len() && #[trigger] v.tracks[k].id == x;
        }
    }
    assert forall|i: int, j: int| 0 <= i < j < t.len() implies #[trigger] t[i].id != #[trigger] t[j].id by {
        if j < s.len() {
            assert(t[i] == s[i] && t[j] == s[j]);
            if c[i] is Some && c[j] is Some {
                assert(c[i] != c[j]);
            } else if c[i] is None && c[j] is None {
                lemma_fresh_count_mono(c, i + 1, j);
                lemma_fresh_count_step(c, i);
            }
        } else if i < s.len() {
            let k = j - s.len();
            assert(t[i] == s[i] && t[j] == g[k]);
            let m = choose|m: int|
                0 <= m < v.tracks.len() && #[trigger] g[k].id == v.tracks[m].id
                    && v.tracks[m].lost_frames < MAX_LOST_FRAMES && g[k].lost_frames
                    == v.tracks[m].lost_frames + 1;
            assert(v.tracks[m].id < v.next_id);
            if let Some(x) = c[i] {
                assert(c.contains(c[i]));
                assert(!c.contains(Some(g[k].id)));
            }
        } else {
            assert(t[i] == g[i - s.len()] && t[j] == g[j - s.len()]);
        }
    }
    assert forall|i: int| 0 <= i < t.len() implies #[trigger] t[i].id < nv.next_id by {
        if i < s.len() {
            assert(t[i] == s[i]);
        } else {
            let k = i - s.len();
            assert(t[i] == g[k]);
            let m = choose|m: int|
                0 <= m < v.tracks.len() && #[trigger] g[k].id == v.tracks[m].id
                    && v.tracks[m].lost_frames < MAX_LOST_FRAMES && g[k].lost_frames
                    == v.tracks[m].lost_frames + 1;
        }
    }
    assert forall|i: int| 0 <= i < t.len() implies #[trigger] t[i].lost_frames <= MAX_LOST_FRAMES by {
        if i < s.len() {
            assert(t[i] == s[i]);
        } else {
            let k = i - s.len();
            assert(t[i] == g[k]);
            let m = choose|m: int|
                0 <= m < v.tracks.len() && #[trigger] g[k].id == v.tracks[m].id
                    && v.tracks[m].lost_frames < MAX_LOST_FRAMES && g[k].lost_frames
                    == v.tracks[m].lost_frames + 1;
        }
    }
}

proof fn lemma_ghost_exists(tracks: Seq<TrackEntry>, c: Seq<Option<usize>>, k: int)
    requires
        0 <= k < tracks.len(),
        !c.contains(Some(tracks[k].id)),
        tracks[k].lost_frames < MAX_LOST_FRAMES,
    ensures
        exists|g: int|
            0 <= g < ghosts_of(tracks, c).len() && #[trigger] ghosts_of(tracks, c)[g] == (TrackEntry {
                id: tracks[k].id,
                lost_frames: (tracks[k].lost_frames + 1) as usize,
            }),
    decreases tracks.len(),
{
    let gn = ghosts_of(tracks, c);
    if k == tracks.len() - 1 {
        assert(gn[gn.len() - 1] == (TrackEntry {
            id: tracks[k].id,
            lost_frames: (tracks[k].lost_frames + 1) as usize,
        }));
    } else {
        let rest = tracks.drop_last();
        assert(rest[k] == tracks[k]);
        lemma_ghost_exists(rest, c, k);
        let g = choose|g: int|
            0 <= g < ghosts_of(rest, c).len() && #[trigger] ghosts_of(rest, c)[g] == (TrackEntry {
                id: rest[k].id,
                lost_frames: (rest[k].lost_frames + 1) as usize,
            });
        assert(gn[g] == ghosts_of(rest, c)[g]);
    }
}

proof fn lemma_unlisted_is_unclaimed(tracks: Seq<TrackEntry>, prefs: Seq<Vec<usize>>, x: usize)
    requires
        forall|d: int| 0 <= d < prefs.len() ==> !(#[trigger] prefs[d]@).contains(x),
    ensures
        !claims(tracks, prefs).contains(Some(x)),
{
    lemma_claims(tracks, prefs);
    let c = claims(tracks, prefs);
    if c.contains(Some(x)) {
        let i = choose|i: int| 0 <= i < c.len() && c[i] == Some(x);
        assert(prefs[i]@.contains(x));
    }
}

/// What a frame does to each existing track: a track that some detection
/// takes over stays with a lost count of 0; an unclaimed track stays with
/// its lost count raised by one while that count is below
/// `MAX_LOST_FRAMES`, and is dropped once it has reached it.
pub proof fn law_track_fate(v: TableView, prefs: Seq<Vec<usize>>, k: int)
    requires
        table_wf(v),
        step_fits(v, prefs),
        0 <= k < v.tracks.len(),
    ensures
        ({
            let c = claims(v.tracks, prefs);
            let nt = step_table(v, prefs).tracks;
            let t = v.tracks[k];
            &&& c.contains(Some(t.id)) ==> exists|i: int|
                0 <= i < nt.len() && #[trigger] nt[i] == (TrackEntry { id: t.id, lost_frames: 0 })
            &&& !c.contains(Some(t.id)) && t.lost_frames < MAX_LOST_FRAMES ==> exists|i: int|
                0 <= i < nt.len() && #[trigger] nt[i] == (TrackEntry {
                    id: t.id,
                    lost_frames: (t.lost_frames + 1) as usize,
                })
            &&& !c.contains(Some(t.id)) && t.lost_frames >= MAX_LOST_FRAMES ==> !is_live(nt, t.id)
        }),
{
    let c = claims(v.tracks, prefs);
    let a = assignments_of(v.next_id, c);
    let s = seen_tracks(a);
    let g = ghosts_of(v.tracks, c);
    let nt = step_table(v, prefs).tracks;
    let t = v.tracks[k];
    lemma_claims(v.tracks, prefs);
    lemma_ghosts(v.tracks, c);
    lemma_fresh_count_full(c);
    assert(nt =~= s + g);
    if c.contains(Some(t.id)) {
        let i = choose|i: int| 0 <= i < c.len() && c[i] == Some(t.id);
        assert(nt[i] == s[i]);
    } else if t.lost_frames < MAX_LOST_FRAMES {
        lemma_ghost_exists(v.tracks, c, k);
        let j = choose|j: int|
            0 <= j < g.len() && #[trigger] g[j] == (TrackEntry {
                id: t.id,
                lost_frames: (t.lost_frames + 1) as usize,
            });
        assert(nt[s.len() + j] == g[j]);
    } else {
        assert forall|i: int| 0 <= i < nt.len() implies #[trigger] nt[i].id != t.id by {
            if i < s.len() {
                assert(nt[i] == s[i]);
                match c[i] {
                    Some(x) => {
                        assert(c.contains(c[i]));
                    },
                    None => {
                        lemma_fresh_count_mono(c, 0, i);
                        lemma_fresh_count_mono(c, i, c.len() as int);
                        assert(c.take(0) =~= Seq::<Option<usize>>::empty());
                    },
                }
            } else {
                let j = i - s.len();
                assert(nt[i] == g[j]);
                let m = choose|m: int|
                    0 <= m < v.tracks.len() && #[trigger] g[j].id == v.tracks[m].id
                        && v.tracks[m].lost_frames < MAX_LOST_FRAMES && g[j].lost_frames
                        == v.tracks[m].lost_frames + 1;
                if m != k {
                    if m < k {
                        assert(v.tracks[m].id != v.tracks[k].id);
                    } else {
                        assert(v.tracks[k].id != v.tracks[m].id);
                    }
                }
            }
        }
    }
}

/// Ids are handed out once: a detection that opens a track gets an id at
/// least the table's next id and below the next id after the frame, the
/// next id never decreases, a detection that continues a track continues a
/// live one from its own preference list, no two detections of a frame end
/// up on the same track, and an id handed out earlier that is no longer live
/// does not come back.
pub proof fn law_ids_are_fresh(v: TableView, prefs: Seq<Vec<usize>>)
    requires
        table_wf(v),
        step_fits(v, prefs),
    ensures
        ({
            let c = claims(v.tracks, prefs);
            let a = assignments_of(v.next_id, c);
            let nv = step_table(v, prefs);
            &&& a.len() == prefs.len()
            &&& v.next_id <= nv.next_id
            &&& forall|i: int|
                0 <= i < a.len() ==> (#[trigger] a[i] matches Assignment::Registered(x) ==> v.next_id
                    <= x < nv.next_id)
            &&& forall|i: int|
                0 <= i < a.len() ==> (#[trigger] a[i] matches Assignment::Matched(x) ==> is_live(
                    v.tracks,
                    x,
                ) && prefs[i]@.contains(x))
            &&& forall|x: usize|
                x < v.next_id && !is_live(v.tracks, x) ==> !#[trigger] is_live(nv.tracks, x)
            &&& forall|i: int, j: int|
                0 <= i < j < a.len() ==> assigned_id(#[trigger] a[i]) != assigned_id(#[trigger] a[j])
        }),
{
    let c = claims(v.tracks, prefs);
    let a = assignments_of(v.next_id, c);
    let s = seen_tracks(a);
    let g = ghosts_of(v.tracks, c);
    let nv = step_table(v, prefs);
    lemma_claims(v.tracks, prefs);
    lemma_ghosts(v.tracks, c);
    lemma_fresh_count_full(c);
    assert(nv.tracks =~= s + g);
    law_step_keeps_table_wf(v, prefs);
    assert forall|i: int, j: int| 0 <= i < j < a.len() implies assigned_id(#[trigger] a[i])
        != assigned_id(#[trigger] a[j]) by {
        assert(nv.tracks[i] == s[i] && nv.tracks[j] == s[j]);
        assert(nv.tracks[i].id != nv.tracks[j].id);
    }
    assert forall|i: int| 0 <= i < a.len() implies (#[trigger] a[i] matches Assignment::Registered(x)
        ==> v.next_id <= x < nv.next_id) by {
        lemma_fresh_count_step(c, i);
        lemma_fresh_count_mono(c, i + 1, c.len() as int);
    }
    assert forall|x: usize| x < v.next_id && !is_live(v.tracks, x) implies !#[trigger] is_live(
        nv.tracks,
        x,
    ) by {
        assert forall|i: int| 0 <= i < nv.tracks.len() implies #[trigger] nv.tracks[i].id != x by {
            if i < s.len() {
                assert(nv.tracks[i] == s[i]);
                if c[i] is None {
                    lemma_fresh_count_step(c, i);
                    lemma_fresh_count_mono(c, i + 1, c.len() as int);
                }
            } else {
                let j = i - s.len();
                assert(nv.tracks[i] == g[j]);
                let m = choose|m: int|
                    0 <= m < v.tracks.len() && #[trigger] g[j].id == v.tracks[m].id
                        && v.tracks[m].lost_frames < MAX_LOST_FRAMES && g[j].lost_frames
                        == v.tracks[m].lost_frames + 1;
            }
        }
    }
}

proof fn lemma_assignments_prefix(next_id: nat, c: Seq<Option<usize>>, i: int)
    requires
        0 <= i <= c.len(),
    ensures
        assignments_of(next_id, c).take(i) == assignments_of(next_id, c.take(i)),
{
    assert forall|e: int| 0 <= e < i implies #[trigger] assignments_of(next_id, c)[e]
        == assignments_of(next_id, c.take(i))[e] by {
        assert(c.take(i).take(e) =~= c.take(e));
    }
    assert(assignments_of(next_id, c).take(i) =~= assignments_of(next_id, c.take(i)));
}

proof fn lemma_fresh_count_is_registered(next_id: nat, c: Seq<Option<usize>>)
    ensures
        fresh_count(c) == assignments_of(next_id, c).filter(|x: Assignment| x is Registered).len(),
    decreases c.len(),
{
    reveal(Seq::filter);
    if c.len() > 0 {
        let n = c.len() as int;
        lemma_fresh_count_is_registered(next_id, c.drop_last());
        lemma_assignments_prefix(next_id, c, n - 1);
        assert(c.take(n - 1) =~= c.drop_last());
        let a = assignments_of(next_id, c);
        assert(a.drop_last() =~= a.take(n - 1));
        assert(a.last() == assignment_of(next_id, c, n - 1));
    }
}

/// New tracks are numbered in detection order from the table's next id:
/// a detection that opens a track gets the next id plus the number of
/// earlier detections of the frame that opened one, and the next id moves
/// on by the number of tracks opened.
pub proof fn law_new_ids_count_up(v: TableView, prefs: Seq<Vec<usize>>)
    requires
        step_fits(v, prefs),
    ensures
        ({
            let a = assignments_of(v.next_id, claims(v.tracks, prefs));
            &&& forall|i: int|
                0 <= i < a.len() ==> (#[trigger] a[i] matches Assignment::Registered(y) ==> y
                    == v.next_id + a.take(i).filter(|x: Assignment| x is Registered).len())
            &&& step_table(v, prefs).next_id == v.next_id + a.filter(
                |x: Assignment| x is Registered,
            ).len()
        }),
{
    let c = claims(v.tracks, prefs);
    let a = assignments_of(v.next_id, c);
    lemma_fresh_count_is_registered(v.next_id, c);
    lemma_fresh_count_full(c);
    assert forall|i: int| 0 <= i < a.len() implies (#[trigger] a[i] matches Assignment::Registered(y)
        ==> y == v.next_id + a.take(i).filter(|x: Assignment| x is Registered).len()) by {
        lemma_assignments_prefix(v.next_id, c, i);
        lemma_fresh_count_is_registered(v.next_id, c.take(i));
        lemma_fresh_count_mono(c, i, c.len() as int);
    }
}

/// The table after a run of frames, each given by its detections'
/// preference lists.
pub open spec fn run_frames(v: TableView, frames: Seq<Seq<Vec<usize>>>) -> TableView
    decreases frames.len(),
{
    if frames.len() == 0 {
        v
    } else {
        step_table(run_frames(v, frames.drop_last()), frames.last())
    }
}

/// No frame of the run is refused for want of ids.
pub open spec fn run_fits(v: TableView, frames: Seq<Seq<Vec<usize>>>) -> bool
    decreases frames.len(),
{
    frames.len() == 0 || (run_fits(v, frames.drop_last()) && step_fits(
        run_frames(v, frames.drop_last()),
        frames.last(),
    ))
}

proof fn lemma_run_frames(v: TableView, frames: Seq<Seq<Vec<usize>>>)
    requires
        table_wf(v),
        run_fits(v, frames),
    ensures
        table_wf(run_frames(v, frames)),
        v.next_id <= run_frames(v, frames).next_id,
    decreases frames.len(),
{
    if frames.len() > 0 {
        let prev = run_frames(v, frames.drop_last());
        lemma_run_frames(v, frames.drop_last());
        let c = claims(prev.tracks, frames.last());
        lemma_claims(prev.tracks, frames.last());
        lemma_fresh_count_full(c);
        law_step_keeps_table_wf(prev, frames.last());
    }
}

/// Occlusion handling over time: a track with lost count `lost` that no
/// detection lists during `frames` is kept through the first
/// `MAX_LOST_FRAMES - lost` of them, its count rising by one per frame, and
/// is gone, for good, after more.
pub proof fn law_unseen_track_expires(
    v: TableView,
    frames: Seq<Seq<Vec<usize>>>,
    x: usize,
    lost: usize,
)
    requires
        table_wf(v),
        run_fits(v, frames),
        exists|k: int| 0 <= k < v.tracks.len() && v.tracks[k] == (TrackEntry { id: x, lost_frames: lost }),
        forall|f: int, d: int|
            0 <= f < frames.len() && 0 <= d < frames[f].len() ==> !(#[trigger] frames[f][d]@).contains(x),
    ensures
        lost + frames.len() <= MAX_LOST_FRAMES ==> exists|i: int|
            0 <= i < run_frames(v, frames).tracks.len() && #[trigger] run_frames(v, frames).tracks[i]
                == (TrackEntry { id: x, lost_frames: (lost + frames.len()) as usize }),
        lost + frames.len() > MAX_LOST_FRAMES ==> !is_live(run_frames(v, frames).tracks, x),
    decreases frames.len(),
{
    if frames.len() > 0 {
        let init = frames.drop_last();
        let last = frames.last();
        assert forall|f: int, d: int|
            0 <= f < init.len() && 0 <= d < init[f].len() implies !(#[trigger] init[f][d]@).contains(x) by {
            assert(init[f] == frames[f]);
        }
        assert forall|d: int| 0 <= d < last.len() implies !(#[trigger] last[d]@).contains(x) by {
            assert(last == frames[frames.len() - 1]);
        }
        law_unseen_track_expires(v, init, x, lost);
        let prev = run_frames(v, init);
        lemma_run_frames(v, init);
        lemma_unlisted_is_unclaimed(prev.tracks, last, x);
        if lost + init.len() <= MAX_LOST_FRAMES {
            let k = choose|k: int|
                0 <= k < prev.tracks.len() && #[trigger] prev.tracks[k] == (TrackEntry {
                    id: x,
                    lost_frames: (lost + init.len()) as usize,
                });
            law_track_fate(prev, last, k);
        } else {
            let k0 = choose|k: int|
                0 <= k < v.tracks.len() && v.tracks[k] == (TrackEntry { id: x, lost_frames: lost });
            assert(v.tracks[k0].id < v.next_id);
            law_ids_are_fresh(prev, last);
            assert(!is_live(step_table(prev, last).tracks, x));
        }
        assert(run_frames(v, frames) == step_table(prev, last));
    } else {
        let k0 = choose|k: int|
            0 <= k < v.tracks.len() && v.tracks[k] == (TrackEntry { id: x, lost_frames: lost });
        assert(v.tracks[k0].lost_frames <= MAX_LOST_FRAMES);
        assert(run_frames(v, frames).tracks[k0] == (TrackEntry {
            id: x,
            lost_frames: (lost + frames.len()) as usize,
        }));
    }
}

fn track_is_live(tracks: &Vec<TrackEntry>, id: usize) -> (r: bool)
    ensures
        r == is_live(tracks@, id),
{
    let n = tracks.len();
    let mut i: usize = 0;
    while i < n
        invariant
            n == tracks@.len(),
            i <= n,
            forall|k: int| 0 <= k < i ==> #[trigger] tracks@[k].id != id,
        decreases n - i,
    {
        if tracks[i].id == id {
            return true;
        }
        i = i + 1;
    }
    false
}

fn is_taken(claimed: &Vec<Option<usize>>, id: usize) -> (r: bool)
    ensures
        r == claimed@.contains(Some(id)),
{
    let n = claimed.len();
    let mut i: usize = 0;
    while i < n
        invariant
            n == claimed@.len(),
            i <= n,
            forall|k: int| 0 <= k < i ==> #[trigger] claimed@[k] != Some(id),
        decreases n - i,
    {
        match claimed[i] {
            Some(x) => {
                if x == id {
                    return true;
                }
            },
            None => {},
        }
        i = i + 1;
    }
    false
}

fn first_free_track(pref: &Vec<usize>, tracks: &Vec<TrackEntry>, claimed: &Vec<Option<usize>>) -> (r:
    Option<usize>)
    ensures
        r == first_free(pref@, tracks@, claimed@),
{
    let n = pref.len();
    let mut j: usize = 0;
    assert(pref@.skip(0) =~= pref@);
    while j < n
        invariant
            n == pref@.len(),
            j <= n,
            first_free(pref@, tracks@, claimed@) == first_free(pref@.skip(j as int), tracks@, claimed@),
        decreases n - j,
    {
        let cand = pref[j];
        assert(pref@.skip(j as int)[0] == cand);
        assert(pref@.skip(j as int).drop_first() =~= pref@.skip(j + 1));
        if track_is_live(tracks, cand) && !is_taken(claimed, cand) {
            return Some(cand);
        }
        j = j + 1;
    }
    None
}

impl TrackTable {
    #[verifier::type_invariant]
    spec fn inv(self) -> bool {
        table_wf(self@)
    }

    /// An empty table that hands out ids from 0.
    pub fn new() -> (t: TrackTable)
        ensures
            t@.next_id == 0,
            t@.tracks == Seq::<TrackEntry>::empty(),
    {
        TrackTable { next_id: 0, tracks: Vec::new() }
    }

    /// The id the next new track will get.
    pub fn next_id(&self) -> (r: usize)
        ensures
            r == self@.next_id,
    {
        self.next_id
    }

    /// The live tracks.
    pub fn tracks(&self) -> (t: &Vec<TrackEntry>)
        ensures
            t@ == self@.tracks,
            table_wf(self@),
    {
        proof {
            use_type_invariant(self);
        }
        &self.tracks
    }

    /// Advances the table by one frame. `preferences[i]` lists, best first,
    /// the ids of the tracks that detection `i` is close enough to continue.
    /// Detection by detection, each takes the first listed live track that
    /// no earlier detection took, or else opens a new track with the next
    /// id. Unmatched tracks stay as ghosts with their lost count raised by
    /// one while it is below `MAX_LOST_FRAMES`; the others are dropped.
    /// Returns `None`, leaving the table unchanged, exactly when the new
    /// tracks would need ids past `usize::MAX`.
    pub fn advance(&mut self, preferences: &Vec<Vec<usize>>) -> (plan: Option<FramePlan>)
        ensures
            plan is None <==> !step_fits(old(self)@, preferences@),
            plan is None ==> final(self)@ == old(self)@,
            plan matches Some(p) ==> {
                &&& final(self)@ == step_table(old(self)@, preferences@)
                &&& p.assignments@ == assignments_of(
                    old(self)@.next_id,
                    claims(old(self)@.tracks, preferences@),
                )
                &&& p.ghosts@ == ghosts_of(
                    old(self)@.tracks,
                    claims(old(self)@.tracks, preferences@),
                )
                &&& p.assignments@.len() == preferences@.len()
            },
            table_wf(final(self)@),
    {
        proof {
            use_type_invariant(&*self);
        }
        let ghost v = self@;
        let n = preferences.len();

        // Which track each detection takes over.
        let mut claimed: Vec<Option<usize>> = Vec::new();
        let mut i: usize = 0;
        assert(preferences@.take(0) =~= Seq::<Vec<usize>>::empty());
        while i < n
            invariant
                n == preferences@.len(),
                i <= n,
                v == self@,
                claimed@ == claims(self.tracks@, preferences@.take(i as int)),
            decreases n - i,
        {
            assert(preferences@.take(i + 1).drop_last() =~= preferences@.take(i as int));
            let m = first_free_track(&preferences[i], &self.tracks, &claimed);
            claimed.push(m);
            i = i + 1;
        }
        assert(preferences@.take(n as int) =~= preferences@);
        let ghost c = claimed@;
        proof {
            lemma_claims(v.tracks, preferences@);
            lemma_fresh_count_full(c);
        }

        // Their ids, in detection order.
        let mut assignments: Vec<Assignment> = Vec::new();
        let mut new_tracks: Vec<TrackEntry> = Vec::new();
        let mut fresh: usize = self.next_id;
        let mut i: usize = 0;
        assert(c.take(0) =~= Seq::<Option<usize>>::empty());
        while i < n
            invariant
                n == preferences@.len(),
                c.len() == n,
                claimed@ == c,
                i <= n,
                v == self@,
                fresh == v.next_id + fresh_count(c.take(i as int)),
                c == claims(v.tracks, preferences@),
                table_wf(v),
                fresh_count(c.take(n as int)) == fresh_count(c),
                assignments@.len() == i,
                new_tracks@.len() == i,
                forall|k: int| 0 <= k < i ==> #[trigger] assignments@[k] == assignment_of(v.next_id, c, k),
                forall|k: int|
                    0 <= k < i ==> #[trigger] new_tracks@[k] == (TrackEntry {
                        id: assigned_id(assignments@[k]),
                        lost_frames: 0,
                    }),
            decreases n - i,
        {
            proof {
                lemma_fresh_count_step(c, i as int);
                lemma_fresh_count_mono(c, i + 1, n as int);
            }
            match claimed[i] {
                Some(t) => {
                    assignments.push(Assignment::Matched(t));
                    new_tracks.push(TrackEntry { id: t, lost_frames: 0 });
                },
                None => {
                    if fresh == usize::MAX {
                        return None;
                    }
                    assignments.push(Assignment::Registered(fresh));
                    new_tracks.push(TrackEntry { id: fresh, lost_frames: 0 });
                    fresh = fresh + 1;
                },
            }
            i = i + 1;
        }
        assert(assignments@ =~= assignments_of(v.next_id, c));
        assert(new_tracks@ =~= seen_tracks(assignments_of(v.next_id, c)));
        let ghost seen = new_tracks@;

        // The unmatched tracks that go on as ghosts.
        let mut ghosts: Vec<TrackEntry> = Vec::new();
        let m = self.tracks.len();
        let mut k: usize = 0;
        assert(v.tracks.take(0) =~= Seq::<TrackEntry>::empty());
        while k < m
            invariant
                m == v.tracks.len(),
                v == self@,
                claimed@ == c,
                k <= m,
                ghosts@ == ghosts_of(v.tracks.take(k as int), c),
                new_tracks@ == seen + ghosts@,
            decreases m - k,
        {
            assert(v.tracks.take(k + 1).drop_last() =~= v.tracks.take(k as int));
            let t = self.tracks[k];
            if !is_taken(&claimed, t.id) && t.lost_frames < MAX_LOST_FRAMES {
                let g = TrackEntry { id: t.id, lost_frames: t.lost_frames + 1 };
                ghosts.push(g);
                new_tracks.push(g);
            }
            k = k + 1;
        }
        assert(v.tracks.take(m as int) =~= v.tracks);
        proof {
            law_step_keeps_table_wf(v, preferences@);
        }
        *self = TrackTable { next_id: fresh, tracks: new_tracks };
        Some(FramePlan { assignments, ghosts })
    }
}

} // verus!
