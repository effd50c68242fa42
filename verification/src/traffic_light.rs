//! Traffic-light states, the temporal majority voter that stabilises them,
//! and the colour-count fallback detector.
use crate::frame::{FrameView, ImageFrame};
use std::collections::VecDeque;
use vstd::prelude::*;

verus! {

/// State of a traffic light, as classified in one frame or as confirmed by
/// the voter. `NoLight` stands for "no light seen".
#[derive(Clone, Copy, Debug, PartialEq, Eq, Structural)]
pub enum LightStatus {
    Red,
    Yellow,
    Green,
    Off,
    NoLight,
}

/// The printed name of each status.
pub open spec fn status_name(s: LightStatus) -> Seq<char> {
    match s {
        LightStatus::Red => "Red"@,
        LightStatus::Yellow => "Yellow"@,
        LightStatus::Green => "Green"@,
        LightStatus::Off => "Off"@,
        LightStatus::NoLight => "None"@,
    }
}

/// The status that the light classifier's class index stands for.
pub open spec fn status_of_class(idx: usize) -> LightStatus {
    if idx == 0 {
        LightStatus::Red
    } else if idx == 1 {
        LightStatus::Yellow
    } else if idx == 2 {
        LightStatus::Green
    } else {
        LightStatus::Off
    }
}

impl LightStatus {
    /// The name under which a status is reported ("Red", ..., "None").
    pub fn name(&self) -> (s: &'static str)
        ensures
            s@ == status_name(*self),
    {
        match self {
            LightStatus::Red => "Red",
            LightStatus::Yellow => "Yellow",
            LightStatus::Green => "Green",
            LightStatus::Off => "Off",
            LightStatus::NoLight => "None",
        }
    }

    /// Maps the arg-max class of the four-way light classifier
    /// (red, yellow, green, off) to a status; any index past 2 is `Off`.
    pub fn from_class_index(idx: usize) -> (s: LightStatus)
        ensures
            s == status_of_class(idx),
    {
        if idx == 0 {
            LightStatus::Red
        } else if idx == 1 {
            LightStatus::Yellow
        } else if idx == 2 {
            LightStatus::Green
        } else {
            LightStatus::Off
        }
    }
}

/// Number of occurrences of `s` in `h`.
pub open spec fn count_status(h: Seq<LightStatus>, s: LightStatus) -> nat
    decreases h.len(),
{
    if h.len() == 0 {
        0
    } else {
        count_status(h.drop_last(), s) + if h.last() == s {
            1nat
        } else {
            0nat
        }
    }
}

/// The history after `obs` is appended, with the oldest entry dropped when
/// the window would otherwise be exceeded.
pub open spec fn windowed(h: Seq<LightStatus>, obs: LightStatus, window: nat) -> Seq<LightStatus> {
    let pushed = h.push(obs);
    if pushed.len() > window {
        pushed.drop_first()
    } else {
        pushed
    }
}

/// The confirmed status for a history: the first of Red, Yellow, Green, Off,
/// NoLight seen at least `threshold` times, or `prev` when none is.
pub open spec fn decide(h: Seq<LightStatus>, threshold: nat, prev: LightStatus) -> LightStatus {
    if count_status(h, LightStatus::Red) >= threshold {
        LightStatus::Red
    } else if count_status(h, LightStatus::Yellow) >= threshold {
        LightStatus::Yellow
    } else if count_status(h, LightStatus::Green) >= threshold {
        LightStatus::Green
    } else if count_status(h, LightStatus::Off) >= threshold {
        LightStatus::Off
    } else if count_status(h, LightStatus::NoLight) >= threshold {
        LightStatus::NoLight
    } else {
        prev
    }
}

/// Abstract state of a voter.
pub struct VoterView {
    pub history: Seq<LightStatus>,
    pub window_size: nat,
    pub threshold: nat,
    pub confirmed: LightStatus,
}

/// One vote: the window moves on by `obs`, and the confirmed status is
/// decided anew.
pub open spec fn vote_step(v: VoterView, obs: LightStatus) -> VoterView {
    let h = windowed(v.history, obs, v.window_size);
    VoterView {
        history: h,
        window_size: v.window_size,
        threshold: v.threshold,
        confirmed: decide(h, v.threshold, v.confirmed),
    }
}

/// The state after the observations `obs` were voted, in order.
pub open spec fn run_votes(v: VoterView, obs: Seq<LightStatus>) -> VoterView
    decreases obs.len(),
{
    if obs.len() == 0 {
        v
    } else {
        vote_step(run_votes(v, obs.drop_last()), obs.last())
    }
}

/// Window of the traffic-light voter: the last five frames.
pub const LIGHT_VOTE_WINDOW: usize = 5;

/// Votes a light state needs within the window to be confirmed: a strict
/// majority of it.
pub const LIGHT_VOTE_THRESHOLD: usize = 3;

/// Stabilises per-frame light states: a status is confirmed once it occurs
/// at least `threshold` times among the last `window_size` observations.
pub struct TemporalVoter {
    history: VecDeque<LightStatus>,
    window_size: usize,
    threshold: usize,
    confirmed: LightStatus,
}

impl View for TemporalVoter {
    type V = VoterView;

    closed spec fn view(&self) -> VoterView {
        VoterView {
            history: self.history@,
            window_size: self.window_size as nat,
            threshold: self.threshold as nat,
            confirmed: self.confirmed,
        }
    }
}

impl TemporalVoter {
    #[verifier::type_invariant]
    spec fn inv(self) -> bool {
        self.history@.len() <= self.window_size
    }

    /// A voter with an empty history that confirms `NoLight` until some
    /// status reaches the threshold.
    pub fn new(window_size: usize, threshold: usize) -> (v: TemporalVoter)
        ensures
            v@.history == Seq::<LightStatus>::empty(),
            v@.window_size == window_size,
            v@.threshold == threshold,
            v@.confirmed == LightStatus::NoLight,
    {
        TemporalVoter {
            history: VecDeque::with_capacity(window_size),
            window_size,
            threshold,
            confirmed: LightStatus::NoLight,
        }
    }

    /// Records `observed` and returns the confirmed status. The history
    /// never holds more than `window_size` entries.
    pub fn vote(&mut self, observed: LightStatus) -> (r: LightStatus)
        ensures
            final(self)@ == vote_step(old(self)@, observed),
            r == final(self)@.confirmed,
            final(self)@.history.len() <= final(self)@.window_size,
    {
        proof {
            use_type_invariant(&*self);
        }
        let mut h: VecDeque<LightStatus> = VecDeque::new();
        std::mem::swap(&mut h, &mut self.history);
        h.push_back(observed);
        if h.len() > self.window_size {
            h.pop_front();
        }
        let ghost hv = h@;
        assert(hv == windowed(old(self)@.history, observed, self.window_size as nat));

        let mut red: usize = 0;
        let mut yellow: usize = 0;
        let mut green: usize = 0;
        let mut off: usize = 0;
        let mut none: usize = 0;
        let n = h.len();
        let mut i: usize = 0;
        while i < n
            invariant
                n == h@.len(),
                h@ == hv,
                i <= n,
                red == count_status(hv.take(i as int), LightStatus::Red),
                yellow == count_status(hv.take(i as int), LightStatus::Yellow),
                green == count_status(hv.take(i as int), LightStatus::Green),
                off == count_status(hv.take(i as int), LightStatus::Off),
                none == count_status(hv.take(i as int), LightStatus::NoLight),
                red <= i,
                yellow <= i,
                green <= i,
                off <= i,
                none <= i,
            decreases n - i,
        {
            assert(hv.take(i + 1).drop_last() =~= hv.take(i as int));
            match h[i] {
                LightStatus::Red => red = red + 1,
                LightStatus::Yellow => yellow = yellow + 1,
                LightStatus::Green => green = green + 1,
                LightStatus::Off => off = off + 1,
                LightStatus::NoLight => none = none + 1,
            }
            i = i + 1;
        }
        assert(hv.take(n as int) =~= hv);

        if red >= self.threshold {
            self.confirmed = LightStatus::Red;
        } else if yellow >= self.threshold {
            self.confirmed = LightStatus::Yellow;
        } else if green >= self.threshold {
            self.confirmed = LightStatus::Green;
        } else if off >= self.threshold {
            self.confirmed = LightStatus::Off;
        } else if none >= self.threshold {
            self.confirmed = LightStatus::NoLight;
        }
        self.history = h;
        self.confirmed
    }

    /// The status confirmed by the latest vote (`NoLight` before any).
    pub fn current(&self) -> (r: LightStatus)
        ensures
            r == self@.confirmed,
    {
        self.confirmed
    }

    /// The voting step of one processed frame: the voter sees exactly one
    /// observation per frame (see `frame_observation`), so its window spans
    /// the last `window_size` frames. Returns the status confirmed after
    /// the vote, which is reported for every fixture of the frame.
    pub fn vote_frame(&mut self, statuses: &Vec<LightStatus>) -> (voted: LightStatus)
        ensures
            final(self)@ == vote_step(old(self)@, frame_observation(statuses@)),
            voted == final(self)@.confirmed,
    {
        if statuses.len() == 0 {
            self.vote(LightStatus::NoLight)
        } else {
            self.vote(statuses[0])
        }
    }
}

/// The observation one processed frame contributes: the status of its
/// first fixture (fixtures come highest detection confidence first), or
/// `NoLight` when no fixture was found.
pub open spec fn frame_observation(statuses: Seq<LightStatus>) -> LightStatus {
    if statuses.len() == 0 {
        LightStatus::NoLight
    } else {
        statuses[0]
    }
}

/// A vote keeps the last observations: the history after voting `obs` is
/// the last `min(len + 1, window_size)` entries of the old history with
/// `obs` appended; only the oldest entry is ever dropped.
pub proof fn law_vote_keeps_last_observations(v: VoterView, obs: LightStatus)
    requires
        v.history.len() <= v.window_size,
    ensures
        ({
            let all = v.history.push(obs);
            let keep = if all.len() <= v.window_size { all.len() } else { v.window_size };
            vote_step(v, obs).history == all.subrange(all.len() - keep, all.len() as int)
        }),
{
    let all = v.history.push(obs);
    if all.len() <= v.window_size {
        assert(all.subrange(0, all.len() as int) =~= all);
    } else {
        assert(all.subrange(1, all.len() as int) =~= all.drop_first());
    }
}

/// `count_status` is the number of occurrences.
proof fn lemma_count_is_filter_len(h: Seq<LightStatus>, s: LightStatus)
    ensures
        count_status(h, s) == h.filter(|x: LightStatus| x == s).len(),
    decreases h.len(),
{
    reveal(Seq::filter);
    if h.len() > 0 {
        lemma_count_is_filter_len(h.drop_last(), s);
    }
}

/// What a vote confirms, counting occurrences in the new window: Red if it
/// occurs at least `threshold` times, else Yellow if it does, else Green,
/// else Off, else NoLight, and otherwise the previously confirmed status.
pub proof fn law_vote_confirms_first_status_at_threshold(v: VoterView, obs: LightStatus)
    ensures
        ({
            let h = vote_step(v, obs).history;
            let t = v.threshold;
            let r = vote_step(v, obs).confirmed;
            let red = h.filter(|x: LightStatus| x == LightStatus::Red).len();
            let yellow = h.filter(|x: LightStatus| x == LightStatus::Yellow).len();
            let green = h.filter(|x: LightStatus| x == LightStatus::Green).len();
            let off = h.filter(|x: LightStatus| x == LightStatus::Off).len();
            let none = h.filter(|x: LightStatus| x == LightStatus::NoLight).len();
            &&& red >= t ==> r == LightStatus::Red
            &&& red < t && yellow >= t ==> r == LightStatus::Yellow
            &&& red < t && yellow < t && green >= t ==> r == LightStatus::Green
            &&& red < t && yellow < t && green < t && off >= t ==> r == LightStatus::Off
            &&& red < t && yellow < t && green < t && off < t && none >= t ==> r
                == LightStatus::NoLight
            &&& red < t && yellow < t && green < t && off < t && none < t ==> r == v.confirmed
        }),
{
    let h = vote_step(v, obs).history;
    lemma_count_is_filter_len(h, LightStatus::Red);
    lemma_count_is_filter_len(h, LightStatus::Yellow);
    lemma_count_is_filter_len(h, LightStatus::Green);
    lemma_count_is_filter_len(h, LightStatus::Off);
    lemma_count_is_filter_len(h, LightStatus::NoLight);
}

/// A processed frame casts exactly one vote: the status of its first
/// (highest-confidence) fixture, or `NoLight` when it has none; the other
/// fixtures of the frame do not enter the window.
pub proof fn law_frame_casts_one_vote(v: VoterView, statuses: Seq<LightStatus>)
    requires
        v.history.len() <= v.window_size,
        v.window_size > 0,
    ensures
        ({
            let h = vote_step(v, frame_observation(statuses)).history;
            &&& h.len() == if v.history.len() < v.window_size {
                v.history.len() + 1
            } else {
                v.window_size
            }
            &&& h.last() == if statuses.len() == 0 {
                LightStatus::NoLight
            } else {
                statuses[0]
            }
        }),
{
}

/// `k` observations of the same status.
pub open spec fn streak(s: LightStatus, k: nat) -> Seq<LightStatus> {
    Seq::new(k, |i: int| s)
}

proof fn lemma_count_le_len(h: Seq<LightStatus>, s: LightStatus)
    ensures
        count_status(h, s) <= h.len(),
    decreases h.len(),
{
    if h.len() > 0 {
        lemma_count_le_len(h.drop_last(), s);
    }
}

proof fn lemma_two_counts_le_len(h: Seq<LightStatus>, s1: LightStatus, s2: LightStatus)
    requires
        s1 != s2,
    ensures
        count_status(h, s1) + count_status(h, s2) <= h.len(),
    decreases h.len(),
{
    if h.len() > 0 {
        lemma_two_counts_le_len(h.drop_last(), s1, s2);
    }
}

proof fn lemma_count_of_suffix(h: Seq<LightStatus>, s: LightStatus, k: nat)
    requires
        forall|i: int| 0 <= i < h.len() && i >= h.len() - k ==> h[i] == s,
    ensures
        count_status(h, s) >= if k < h.len() { k } else { h.len() },
    decreases h.len(),
{
    if h.len() > 0 && k > 0 {
        let t = h.drop_last();
        assert forall|i: int| 0 <= i < t.len() && i >= t.len() - (k - 1) implies t[i] == s by {
            assert(t[i] == h[i]);
        }
        lemma_count_of_suffix(t, s, (k - 1) as nat);
    }
}

proof fn lemma_run_keeps_parameters(v: VoterView, obs: Seq<LightStatus>)
    ensures
        run_votes(v, obs).window_size == v.window_size,
        run_votes(v, obs).threshold == v.threshold,
        v.history.len() <= v.window_size ==> run_votes(v, obs).history.len() <= v.window_size,
    decreases obs.len(),
{
    if obs.len() > 0 {
        lemma_run_keeps_parameters(v, obs.drop_last());
    }
}

proof fn lemma_streak_suffix(v: VoterView, s: LightStatus, k: nat)
    requires
        v.history.len() <= v.window_size,
    ensures
        ({
            let h = run_votes(v, streak(s, k)).history;
            &&& h.len() <= v.window_size
            &&& h.len() >= if k < v.window_size { k } else { v.window_size }
            &&& forall|i: int| 0 <= i < h.len() && i >= h.len() - k ==> h[i] == s
        }),
    decreases k,
{
    lemma_run_keeps_parameters(v, streak(s, k));
    if k > 0 {
        assert(streak(s, k).drop_last() =~= streak(s, (k - 1) as nat));
        lemma_streak_suffix(v, s, (k - 1) as nat);
        lemma_run_keeps_parameters(v, streak(s, (k - 1) as nat));
        let prev = run_votes(v, streak(s, (k - 1) as nat)).history;
        let pushed = prev.push(s);
        let h = run_votes(v, streak(s, k)).history;
        assert(h == windowed(prev, s, v.window_size));
        if pushed.len() > v.window_size {
            assert forall|i: int| 0 <= i < h.len() && i >= h.len() - k implies h[i] == s by {
                assert(h[i] == pushed[i + 1]);
            }
        } else {
            assert forall|i: int| 0 <= i < h.len() && i >= h.len() - k implies h[i] == s by {
                assert(h[i] == pushed[i]);
            }
        }
    }
}

/// When the threshold is a strict majority of the window, at most one
/// status can reach it within a window's worth of history.
pub proof fn law_majority_is_unique(
    h: Seq<LightStatus>,
    window: nat,
    threshold: nat,
    s1: LightStatus,
    s2: LightStatus,
)
    requires
        h.len() <= window,
        2 * threshold > window,
        count_status(h, s1) >= threshold,
        count_status(h, s2) >= threshold,
    ensures
        s1 == s2,
{
    if s1 != s2 {
        lemma_two_counts_le_len(h, s1, s2);
    }
}

/// A status that reaches a majority threshold is the one the voter confirms,
/// whatever the order in which statuses are checked.
pub proof fn law_majority_is_confirmed(v: VoterView, obs: LightStatus)
    requires
        v.history.len() <= v.window_size,
        2 * v.threshold > v.window_size,
        count_status(windowed(v.history, obs, v.window_size), obs) >= v.threshold,
    ensures
        vote_step(v, obs).confirmed == obs,
{
    let h = windowed(v.history, obs, v.window_size);
    assert(h.len() <= v.window_size);
    if count_status(h, LightStatus::Red) >= v.threshold {
        law_majority_is_unique(h, v.window_size, v.threshold, LightStatus::Red, obs);
    }
    if count_status(h, LightStatus::Yellow) >= v.threshold {
        law_majority_is_unique(h, v.window_size, v.threshold, LightStatus::Yellow, obs);
    }
    if count_status(h, LightStatus::Green) >= v.threshold {
        law_majority_is_unique(h, v.window_size, v.threshold, LightStatus::Green, obs);
    }
    if count_status(h, LightStatus::Off) >= v.threshold {
        law_majority_is_unique(h, v.window_size, v.threshold, LightStatus::Off, obs);
    }
}

/// With a majority threshold (at least one, at most the window), `k >=
/// threshold` consecutive observations of the same status make the voter
/// confirm that status, from any state it can be in.
pub proof fn law_streak_confirms(v: VoterView, s: LightStatus, k: nat)
    requires
        v.history.len() <= v.window_size,
        1 <= v.threshold <= v.window_size,
        2 * v.threshold > v.window_size,
        k >= v.threshold,
    ensures
        run_votes(v, streak(s, k)).confirmed == s,
{
    let w = run_votes(v, streak(s, (k - 1) as nat));
    assert(streak(s, k).drop_last() =~= streak(s, (k - 1) as nat));
    lemma_run_keeps_parameters(v, streak(s, (k - 1) as nat));
    lemma_streak_suffix(v, s, k);
    let h = run_votes(v, streak(s, k)).history;
    assert(h == windowed(w.history, s, w.window_size));
    lemma_count_of_suffix(h, s, k);
    law_majority_is_confirmed(w, s);
}

/// Without any status reaching the threshold, a vote keeps the confirmed
/// status.
pub proof fn law_confirmed_holds_below_threshold(v: VoterView, obs: LightStatus)
    requires
        forall|s: LightStatus|
            #[trigger] count_status(windowed(v.history, obs, v.window_size), s) < v.threshold,
    ensures
        vote_step(v, obs).confirmed == v.confirmed,
{
    let h = windowed(v.history, obs, v.window_size);
    assert(count_status(h, LightStatus::Red) < v.threshold);
    assert(count_status(h, LightStatus::Yellow) < v.threshold);
    assert(count_status(h, LightStatus::Green) < v.threshold);
    assert(count_status(h, LightStatus::Off) < v.threshold);
    assert(count_status(h, LightStatus::NoLight) < v.threshold);
}

/// The colour class of one BGR pixel for the fallback detector: bright red
/// (r > 180, g < 80, b < 80), bright green (g > 180, r < 80, b < 80), bright
/// yellow (r > 180, g > 180, b < 80), or none of these.
pub open spec fn pixel_color(b: u8, g: u8, r: u8) -> LightStatus {
    if r > 180 && g < 80 && b < 80 {
        LightStatus::Red
    } else if g > 180 && r < 80 && b < 80 {
        LightStatus::Green
    } else if r > 180 && g > 180 && b < 80 {
        LightStatus::Yellow
    } else {
        LightStatus::NoLight
    }
}

/// Number of pixels of colour class `color` among the first `n` pixels of
/// the frame in raster order (channels 0, 1, 2 read as b, g, r).
pub open spec fn color_count(f: FrameView, n: nat, color: LightStatus) -> nat
    decreases n,
{
    if n == 0 {
        0
    } else {
        let p = (n - 1) * f.channels;
        color_count(f, (n - 1) as nat, color) + if pixel_color(
            f.data[p],
            f.data[p + 1],
            f.data[p + 2],
        ) == color {
            1nat
        } else {
            0nat
        }
    }
}

/// The status reported by colour counting: in the top third of the frame (rows
/// `0 .. height / 3`, that is the first `(height / 3) * width` pixels in
/// raster order) more than 50 red pixels mean Red, else more than 50 yellow
/// mean Yellow, else more than 50 green mean Green, else NoLight.
pub open spec fn hsv_status(f: FrameView) -> LightStatus {
    let n = (f.height / 3) * f.width;
    if color_count(f, n, LightStatus::Red) > 50 {
        LightStatus::Red
    } else if color_count(f, n, LightStatus::Yellow) > 50 {
        LightStatus::Yellow
    } else if color_count(f, n, LightStatus::Green) > 50 {
        LightStatus::Green
    } else {
        LightStatus::NoLight
    }
}

/// Number of the first `n` pixels of the frame, in raster order, whose
/// bytes (b, g, r) satisfy `pred`.
pub open spec fn pixels_matching(f: FrameView, n: nat, pred: spec_fn(u8, u8, u8) -> bool) -> nat
    decreases n,
{
    if n == 0 {
        0
    } else {
        let p = (n - 1) * f.channels;
        pixels_matching(f, (n - 1) as nat, pred) + if pred(f.data[p], f.data[p + 1], f.data[p + 2]) {
            1nat
        } else {
            0nat
        }
    }
}

proof fn lemma_color_count_matches(
    f: FrameView,
    n: nat,
    color: LightStatus,
    pred: spec_fn(u8, u8, u8) -> bool,
)
    requires
        forall|b: u8, g: u8, r: u8| #[trigger] pred(b, g, r) == (pixel_color(b, g, r) == color),
    ensures
        color_count(f, n, color) == pixels_matching(f, n, pred),
    decreases n,
{
    if n > 0 {
        lemma_color_count_matches(f, (n - 1) as nat, color, pred);
        let p = (n - 1) * f.channels;
        assert(pred(f.data[p], f.data[p + 1], f.data[p + 2]) == (pixel_color(
            f.data[p],
            f.data[p + 1],
            f.data[p + 2],
        ) == color));
    }
}

/// The colour thresholds of the detector: over the top third of the frame,
/// a pixel counts as red when r > 180, g < 80, b < 80; as yellow when
/// r > 180, g > 180, b < 80; as green when g > 180, r < 80, b < 80. More than
/// 50 red pixels give Red, else more than 50 yellow give Yellow, else more
/// than 50 green give Green, else NoLight.
pub proof fn law_colour_thresholds(f: FrameView)
    ensures
        ({
            let n = (f.height / 3) * f.width;
            let red = pixels_matching(f, n, |b: u8, g: u8, r: u8| r > 180 && g < 80 && b < 80);
            let yellow = pixels_matching(f, n, |b: u8, g: u8, r: u8| r > 180 && g > 180 && b < 80);
            let green = pixels_matching(f, n, |b: u8, g: u8, r: u8| g > 180 && r < 80 && b < 80);
            hsv_status(f) == if red > 50 {
                LightStatus::Red
            } else if yellow > 50 {
                LightStatus::Yellow
            } else if green > 50 {
                LightStatus::Green
            } else {
                LightStatus::NoLight
            }
        }),
{
    let n = (f.height / 3) * f.width;
    lemma_color_count_matches(
        f,
        n,
        LightStatus::Red,
        |b: u8, g: u8, r: u8| r > 180 && g < 80 && b < 80,
    );
    lemma_color_count_matches(
        f,
        n,
        LightStatus::Yellow,
        |b: u8, g: u8, r: u8| r > 180 && g > 180 && b < 80,
    );
    lemma_color_count_matches(
        f,
        n,
        LightStatus::Green,
        |b: u8, g: u8, r: u8| g > 180 && r < 80 && b < 80,
    );
}

proof fn lemma_no_pixel_matches(f: FrameView, n: nat, pred: spec_fn(u8, u8, u8) -> bool)
    requires
        forall|p: int| 0 <= p < n ==> !pred(
            #[trigger] f.data[p * f.channels],
            f.data[p * f.channels + 1],
            f.data[p * f.channels + 2],
        ),
    ensures
        pixels_matching(f, n, pred) == 0,
    decreases n,
{
    if n > 0 {
        let p = (n - 1) as int;
        assert(!pred(f.data[p * f.channels], f.data[p * f.channels + 1], f.data[p * f.channels + 2]));
        lemma_no_pixel_matches(f, (n - 1) as nat, pred);
    }
}

/// Every colour class needs a dark blue channel: when every pixel of the
/// top third has b >= 80 (white, sky, ...), the detector reports NoLight.
pub proof fn law_bright_blue_never_counts(f: FrameView)
    requires
        forall|p: int|
            0 <= p < (f.height / 3) * f.width ==> #[trigger] f.data[p * f.channels] >= 80,
    ensures
        hsv_status(f) == LightStatus::NoLight,
{
    let n = (f.height / 3) * f.width;
    law_colour_thresholds(f);
    let pr = |b: u8, g: u8, r: u8| r > 180 && g < 80 && b < 80;
    let py = |b: u8, g: u8, r: u8| r > 180 && g > 180 && b < 80;
    let pg = |b: u8, g: u8, r: u8| g > 180 && r < 80 && b < 80;
    assert forall|p: int| 0 <= p < n implies !pr(
        #[trigger] f.data[p * f.channels],
        f.data[p * f.channels + 1],
        f.data[p * f.channels + 2],
    ) by {}
    assert forall|p: int| 0 <= p < n implies !py(
        #[trigger] f.data[p * f.channels],
        f.data[p * f.channels + 1],
        f.data[p * f.channels + 2],
    ) by {}
    assert forall|p: int| 0 <= p < n implies !pg(
        #[trigger] f.data[p * f.channels],
        f.data[p * f.channels + 1],
        f.data[p * f.channels + 2],
    ) by {}
    lemma_no_pixel_matches(f, n, pr);
    lemma_no_pixel_matches(f, n, py);
    lemma_no_pixel_matches(f, n, pg);
}

proof fn lemma_color_count_le(f: FrameView, n: nat, color: LightStatus)
    ensures
        color_count(f, n, color) <= n,
    decreases n,
{
    if n > 0 {
        lemma_color_count_le(f, (n - 1) as nat, color);
    }
}

proof fn lemma_pixel_in_frame(p: int, n: int, h: int, w: int, c: int)
    requires
        0 <= p < n,
        n == (h / 3) * w,
        h >= 0,
        w >= 0,
        c >= 3,
    ensures
        p * c + 2 < h * w * c,
        p * c >= 0,
{
    assert((h / 3) * w <= h * w) by (nonlinear_arith)
        requires
            h >= 0,
            w >= 0,
    ;
    assert(p * c + 2 < h * w * c) by (nonlinear_arith)
        requires
            0 <= p < h * w,
            c >= 3,
    ;
    assert(p * c >= 0) by (nonlinear_arith)
        requires
            p >= 0,
            c >= 3,
    ;
}

/// Colour-count fallback for traffic lights on a BGR frame (see
/// `hsv_status`); the frame needs three channels unless its top third is
/// empty.
pub fn detect_traffic_light_hsv(frame: &ImageFrame) -> (s: LightStatus)
    requires
        (frame@.height / 3) * frame@.width == 0 || frame@.channels >= 3,
    ensures
        s == hsv_status(frame@),
{
    let h = frame.height();
    let w = frame.width();
    let c = frame.channels();
    let data = frame.data();
    let len = data.len();
    let scan_h = h / 3;
    assert(scan_h * w <= h * w) by (nonlinear_arith)
        requires
            scan_h == h / 3,
    ;
    assert(scan_h * w == 0 || h * w <= h * w * c) by (nonlinear_arith)
        requires
            scan_h * w == 0 || c >= 3,
    ;
    let n: usize = scan_h * w;
    let ghost fv = frame@;

    // Counted in machine words: a count never exceeds the pixels scanned.
    let mut red_count: usize = 0;
    let mut green_count: usize = 0;
    let mut yellow_count: usize = 0;
    let mut p: usize = 0;
    while p < n
        invariant
            fv == frame@,
            data@ == fv.data,
            data@.len() == h * w * c,
            len == data@.len(),
            fv.height == h,
            fv.width == w,
            fv.channels == c,
            n == 0 || c >= 3,
            n == (h / 3) * w,
            p <= n,
            red_count == color_count(fv, p as nat, LightStatus::Red),
            green_count == color_count(fv, p as nat, LightStatus::Green),
            yellow_count == color_count(fv, p as nat, LightStatus::Yellow),
        decreases n - p,
    {
        proof {
            lemma_pixel_in_frame(p as int, n as int, h as int, w as int, c as int);
            lemma_color_count_le(fv, p as nat, LightStatus::Red);
            lemma_color_count_le(fv, p as nat, LightStatus::Green);
            lemma_color_count_le(fv, p as nat, LightStatus::Yellow);
        }
        let base = p * c;
        let b = data[base];
        let g = data[base + 1];
        let r = data[base + 2];
        if r > 180 && g < 80 && b < 80 {
            red_count = red_count + 1;
        } else if g > 180 && r < 80 && b < 80 {
            green_count = green_count + 1;
        } else if r > 180 && g > 180 && b < 80 {
            yellow_count = yellow_count + 1;
        }
        p = p + 1;
    }

    if red_count > 50 {
        LightStatus::Red
    } else if yellow_count > 50 {
        LightStatus::Yellow
    } else if green_count > 50 {
        LightStatus::Green
    } else {
        LightStatus::NoLight
    }
}

} // verus!
