//! The drum machine's voice engine: which note plays which drum group,
//! the loaded sample bank, and the samples currently sounding.
use vstd::prelude::*;

use rustc_hash::FxHashMap;

use crate::loaded_sample::LoadedSample;
use crate::playing_sample::PlayingSample;

verus! {

#[verifier::external_type_specification]
#[verifier::external_body]
pub struct ExFxBuildHasher(rustc_hash::FxBuildHasher);

/// Looks `note` up in a note map with `HashMap::get`, on an `FxHashMap`
/// (whose Fx hasher vstd's `HashMap` model does not cover). Claimed: the
/// result is the group the map holds for `note`, or `None` when the map
/// holds no entry for it.
#[verifier::external_body]
fn note_map_get(m: &FxHashMap<u8, usize>, note: u8) -> (r: Option<usize>)
    ensures
        r == if m@.contains_key(note) {
            Some(m@[note])
        } else {
            None::<usize>
        },
{
    match m.get(&note) {
        Some(group) => Some(*group),
        None => None,
    }
}

/// Adds an entry to a note map with `HashMap::insert`, on an `FxHashMap`.
/// Claimed: afterwards the map holds `group` for `note` and is otherwise
/// unchanged. What `insert` returns (the entry it replaced) is dropped.
#[verifier::external_body]
fn note_map_insert(m: &mut FxHashMap<u8, usize>, note: u8, group: usize)
    ensures
        final(m)@ == old(m)@.insert(note, group),
{
    m.insert(note, group);
}

/// The notes the kit answers to, and the drum group each one triggers:
/// bass drum, crash, clap, closed hi-hat, open hi-hat, ride, rimshot, snare.
pub open spec fn default_note_map() -> Map<u8, usize> {
    map![
        36u8 => 0usize,
        57u8 => 1usize,
        39u8 => 2usize,
        42u8 => 3usize,
        46u8 => 4usize,
        59u8 => 5usize,
        37u8 => 6usize,
        40u8 => 7usize
    ]
}

/// Whether a voice plays from a drum group other than `group`.
pub open spec fn other_group<G>(group: usize) -> spec_fn(PlayingSample<G>) -> bool {
    |v: PlayingSample<G>| v.sample.0 != group
}

/// The voices with the one of drum group `group` (if any) taken out.
pub open spec fn without_group<G>(vs: Seq<PlayingSample<G>>, group: usize) -> Seq<PlayingSample<G>> {
    vs.filter(other_group(group))
}

/// No two voices play from the same drum group.
pub open spec fn groups_distinct<G>(vs: Seq<PlayingSample<G>>) -> bool {
    forall|i: int, j: int|
        0 <= i < j < vs.len() ==> #[trigger] vs[i].sample.0 != #[trigger] vs[j].sample.0
}

/// A cursor at the start of a sample, as `PlayingSample::new` makes it.
pub open spec fn fresh_voice<G>(sample: (usize, usize), sample_len: usize, gain: G) -> PlayingSample<G> {
    PlayingSample { sample, position: 0, sample_len, gain }
}

/// One step of a voice.
pub open spec fn stepper<G>() -> spec_fn(PlayingSample<G>) -> PlayingSample<G> {
    |v: PlayingSample<G>| v.stepped()
}

/// Whether a voice has frames left.
pub open spec fn unfinished<G>() -> spec_fn(PlayingSample<G>) -> bool {
    |v: PlayingSample<G>| !v.spec_is_done()
}

/// The voices that remain after a frame: every voice steps once, and the
/// voices that have reached the end of their sample are dropped.
pub open spec fn survivors<G>(vs: Seq<PlayingSample<G>>) -> Seq<PlayingSample<G>> {
    vs.map_values(stepper()).filter(unfinished())
}

/// A voice that still has a frame to give out.
pub open spec fn is_sounding<G>(v: PlayingSample<G>) -> bool {
    v.position < v.sample_len
}

/// Whether a voice still has a frame to give out, as a predicate.
pub open spec fn sounding<G>() -> spec_fn(PlayingSample<G>) -> bool {
    |v: PlayingSample<G>| is_sounding(v)
}

/// Filtering keeps only elements of the original that pass the filter,
/// and keeps voices in distinct groups.
proof fn lemma_filter_keeps<G>(vs: Seq<PlayingSample<G>>, pred: spec_fn(PlayingSample<G>) -> bool)
    ensures
        forall|i: int|
            0 <= i < vs.filter(pred).len() ==> vs.contains(#[trigger] vs.filter(pred)[i]) && pred(
                vs.filter(pred)[i],
            ),
        groups_distinct(vs) ==> groups_distinct(vs.filter(pred)),
    decreases vs.len(),
{
    reveal(Seq::filter);
    if vs.len() > 0 {
        let d = vs.drop_last();
        lemma_filter_keeps(d, pred);
        let fd = d.filter(pred);
        let f = vs.filter(pred);
        assert forall|i: int| 0 <= i < f.len() implies vs.contains(#[trigger] f[i]) && pred(f[i]) by {
            if i < fd.len() {
                assert(f[i] == fd[i]);
                let j = choose|j: int| 0 <= j < d.len() && d[j] == fd[i];
                assert(vs[j] == d[j]);
            } else {
                assert(f[i] == vs.last());
                assert(vs[vs.len() - 1] == vs.last());
            }
        }
        if groups_distinct(vs) {
            assert(groups_distinct(d)) by {
                assert forall|i: int, j: int| 0 <= i < j < d.len() implies #[trigger] d[i].sample.0
                    != #[trigger] d[j].sample.0 by {
                    assert(d[i] == vs[i] && d[j] == vs[j]);
                }
            }
            assert forall|i: int, j: int| 0 <= i < j < f.len() implies #[trigger] f[i].sample.0
                != #[trigger] f[j].sample.0 by {
                if j < fd.len() {
                    assert(f[i] == fd[i] && f[j] == fd[j]);
                } else {
                    assert(f[i] == fd[i]);
                    let k = choose|k: int| 0 <= k < d.len() && d[k] == fd[i];
                    assert(vs[k] == d[k]);
                    assert(f[j] == vs[vs.len() - 1]);
                }
            }
        }
    }
}

/// Voice engine of the drum machine, over frames of type `T` and gains of
/// type `G`.
pub struct OneNine<T, G> {
    samples: Vec<Vec<LoadedSample<T>>>,
    note_mappings: FxHashMap<u8, usize>,
    playing_samples: Vec<PlayingSample<G>>,
}

impl<T, G> OneNine<T, G> {
    /// The sample bank: for each drum group, its samples.
    pub closed spec fn bank(&self) -> Seq<Vec<LoadedSample<T>>> {
        self.samples@
    }

    /// Which drum group each note triggers.
    pub closed spec fn note_map(&self) -> Map<u8, usize> {
        self.note_mappings@
    }

    /// The voices now sounding, oldest first.
    pub closed spec fn voices(&self) -> Seq<PlayingSample<G>> {
        self.playing_samples@
    }

    /// Sample `index` of drum group `group` exists and has a first channel.
    pub open spec fn has_sample(&self, group: int, index: int) -> bool {
        &&& 0 <= group < self.bank().len()
        &&& 0 <= index < self.bank()[group]@.len()
        &&& self.bank()[group]@[index]@.len() > 0
    }

    /// The frames that are played of sample `index` of group `group`: those
    /// of its first channel.
    pub open spec fn frames(&self, group: int, index: int) -> Seq<T> {
        self.bank()[group]@[index]@[0]
    }

    /// The frame a voice gives out next.
    pub open spec fn frame_of(&self, v: PlayingSample<G>) -> T {
        self.frames(v.sample.0 as int, v.sample.1 as int)[v.position as int]
    }

    /// Voice `v` refers to a sample of the bank, has that sample's length
    /// and has not gone past its end.
    pub open spec fn voice_fits(&self, v: PlayingSample<G>) -> bool {
        &&& self.has_sample(v.sample.0 as int, v.sample.1 as int)
        &&& v.sample_len == self.frames(v.sample.0 as int, v.sample.1 as int).len()
        &&& v.position <= v.sample_len
    }

    /// Every sounding voice can read its next frame from the bank.
    pub open spec fn frame_readable(&self) -> bool {
        forall|k: int|
            0 <= k < self.voices().len() && is_sounding(#[trigger] self.voices()[k]) ==> {
                &&& self.has_sample(self.voices()[k].sample.0 as int, self.voices()[k].sample.1 as int)
                &&& self.voices()[k].position < self.frames(
                    self.voices()[k].sample.0 as int,
                    self.voices()[k].sample.1 as int,
                ).len()
            }
    }

    /// Every voice plays a drum group that some note triggers.
    pub open spec fn voice_groups_mapped(&self) -> bool {
        forall|k: int|
            0 <= k < self.voices().len() ==> self.note_map().values().contains(
                #[trigger] self.voices()[k].sample.0,
            )
    }

    /// The engine's invariant: at most one voice per drum group, and every
    /// voice fits the bank.
    pub open spec fn wf(&self) -> bool {
        &&& groups_distinct(self.voices())
        &&& forall|k: int| 0 <= k < self.voices().len() ==> self.voice_fits(#[trigger] self.voices()[k])
    }

    /// What one frame gives out: for each sounding voice, oldest first, the
    /// frame it reads and its gain.
    pub open spec fn frame_output(&self) -> Seq<(T, G)> {
        self.played(self.voices())
    }

    /// What a frame gives out for voices `vs`: for each sounding voice,
    /// oldest first, the frame it reads and its gain.
    pub open spec fn played(&self, vs: Seq<PlayingSample<G>>) -> Seq<(T, G)> {
        vs.filter(sounding()).map_values(self.frame_and_gain())
    }

    /// The frame a voice gives out next, with its gain.
    pub open spec fn frame_and_gain(&self) -> spec_fn(PlayingSample<G>) -> (T, G) {
        |v: PlayingSample<G>| (self.frame_of(v), v.gain)
    }

    /// `note_on(note, slots)` can be carried out: when `note` triggers a
    /// drum group, `slots` has an entry for the group and that entry names
    /// a sample of the group in the bank, with at least one channel.
    pub open spec fn can_start(&self, note: u8, slots: Seq<(i32, G)>) -> bool {
        self.note_map().contains_key(note) ==> {
            let group = self.note_map()[note] as int;
            &&& group < slots.len()
            &&& slots[group].0 >= 0
            &&& self.has_sample(group, slots[group].0 as int)
        }
    }

    /// The voices after `note_on(note, slots)`.
    pub open spec fn voices_after_note_on(&self, note: u8, slots: Seq<(i32, G)>) -> Seq<
        PlayingSample<G>,
    > {
        if self.note_map().contains_key(note) {
            let group = self.note_map()[note];
            let index = slots[group as int].0 as usize;
            without_group(self.voices(), group).push(
                fresh_voice(
                    (group, index),
                    self.frames(group as int, index as int).len() as usize,
                    slots[group as int].1,
                ),
            )
        } else {
            self.voices()
        }
    }
}

impl<T, G> Default for OneNine<T, G> {
    /// An engine with the kit's note map, an empty bank and no voice.
    fn default() -> (s: Self)
        ensures
            s.note_map() == default_note_map(),
            s.bank() == Seq::<Vec<LoadedSample<T>>>::empty(),
            s.voices() == Seq::<PlayingSample<G>>::empty(),
            s.wf(),
            s.voice_groups_mapped(),
    {
        let mut note_mappings: FxHashMap<u8, usize> = FxHashMap::default();
        // Base/Kick Drum
        note_map_insert(&mut note_mappings, 36, 0);
        // Crash
        note_map_insert(&mut note_mappings, 57, 1);
        // Clap
        note_map_insert(&mut note_mappings, 39, 2);
        // Closed HiHat
        note_map_insert(&mut note_mappings, 42, 3);
        // Open HiHat
        note_map_insert(&mut note_mappings, 46, 4);
        // Ride
        note_map_insert(&mut note_mappings, 59, 5);
        // Rimshot
        note_map_insert(&mut note_mappings, 37, 6);
        // Snare Drum
        note_map_insert(&mut note_mappings, 40, 7);
        let s = OneNine {
            samples: Vec::new(),
            note_mappings,
            playing_samples: Vec::with_capacity(8),
        };
        assert(s.note_map() =~= default_note_map());
        s
    }
}

impl<T, G: Copy> OneNine<T, G> {
    /// Replaces the sample bank; the note map and the voices stay.
    pub fn set_samples(&mut self, samples: Vec<Vec<LoadedSample<T>>>)
        ensures
            final(self).bank() == samples@,
            final(self).note_map() == old(self).note_map(),
            final(self).voices() == old(self).voices(),
            groups_distinct(old(self).voices()) ==> groups_distinct(final(self).voices()),
            old(self).voice_groups_mapped() ==> final(self).voice_groups_mapped(),
    {
        self.samples = samples;
    }

    /// The drum group that `note` triggers, if any.
    pub fn voice_group(&self, note: u8) -> (r: Option<usize>)
        ensures
            r == if self.note_map().contains_key(note) {
                Some(self.note_map()[note])
            } else {
                None::<usize>
            },
    {
        note_map_get(&self.note_mappings, note)
    }

    /// Takes out the voice of drum group `group`, if there is one.
    fn remove_group(&mut self, group: usize)
        ensures
            final(self).voices() == without_group(old(self).voices(), group),
            final(self).bank() == old(self).bank(),
            final(self).note_map() == old(self).note_map(),
            old(self).wf() ==> final(self).wf(),
            groups_distinct(old(self).voices()) ==> groups_distinct(final(self).voices()),
            old(self).voice_groups_mapped() ==> final(self).voice_groups_mapped(),
    {
        let ghost pred = other_group::<G>(group);
        let mut kept: Vec<PlayingSample<G>> = Vec::new();
        let mut k: usize = 0;
        while k < self.playing_samples.len()
            invariant
                k <= self.playing_samples@.len(),
                pred == other_group::<G>(group),
                kept@ == self.playing_samples@.take(k as int).filter(pred),
            decreases self.playing_samples@.len() - k,
        {
            let v = self.playing_samples[k];
            assert(v == self.playing_samples@[k as int]);
            proof {
                assert(self.playing_samples@.take(k + 1) =~= self.playing_samples@.take(
                    k as int,
                ).push(v));
                self.playing_samples@.take(k as int).lemma_filter_push(v, pred);
            }
            if v.sample.0 != group {
                kept.push(v);
            }
            k = k + 1;
        }
        proof {
            assert(self.playing_samples@.take(k as int) =~= self.playing_samples@);
            lemma_filter_keeps(self.playing_samples@, pred);
        }
        self.playing_samples = kept;
        proof {
            if old(self).voice_groups_mapped() {
                assert forall|k2: int| 0 <= k2 < self.voices().len() implies self.note_map().values().contains(
                    #[trigger] self.voices()[k2].sample.0,
                ) by {
                    assert(old(self).voices().contains(self.voices()[k2]));
                    let j = choose|j: int|
                        0 <= j < old(self).voices().len() && old(self).voices()[j]
                            == self.voices()[k2];
                    assert(old(self).note_map().values().contains(old(self).voices()[j].sample.0));
                }
            }
            if old(self).wf() {
                assert forall|k2: int| 0 <= k2 < self.voices().len() implies self.voice_fits(
                    #[trigger] self.voices()[k2],
                ) by {
                    assert(old(self).voices().contains(self.voices()[k2]));
                    let j = choose|j: int|
                        0 <= j < old(self).voices().len() && old(self).voices()[j]
                            == self.voices()[k2];
                    assert(old(self).voice_fits(old(self).voices()[j]));
                }
            }
        }
    }

    /// Stops the voice of the drum group that `note` triggers; a note the
    /// kit does not answer to changes nothing.
    pub fn note_off(&mut self, note: u8)
        ensures
            final(self).voices() == if old(self).note_map().contains_key(note) {
                without_group(old(self).voices(), old(self).note_map()[note])
            } else {
                old(self).voices()
            },
            final(self).bank() == old(self).bank(),
            final(self).note_map() == old(self).note_map(),
            old(self).wf() ==> final(self).wf(),
            groups_distinct(old(self).voices()) ==> groups_distinct(final(self).voices()),
            old(self).voice_groups_mapped() ==> final(self).voice_groups_mapped(),
    {
        if let Some(sample_sel) = self.voice_group(note) {
            self.remove_group(sample_sel);
        }
    }

    /// Whether `note_on(note, slots)` can be carried out.
    pub fn can_note_on(&self, note: u8, slots: &[(i32, G)]) -> (b: bool)
        ensures
            b == self.can_start(note, slots@),
    {
        match self.voice_group(note) {
            None => true,
            Some(sample_sel) => {
                if sample_sel >= slots.len() || slots[sample_sel].0 < 0 {
                    false
                } else {
                    let sample_i = slots[sample_sel].0 as usize;
                    sample_sel < self.samples.len() && sample_i < self.samples[sample_sel].len()
                        && self.samples[sample_sel][sample_i].0.len() > 0
                }
            },
        }
    }

    /// Starts the drum group that `note` triggers: entry `slots[group]`
    /// gives the sample of the group to play and the gain to play it at.
    /// A voice of the same group that is sounding is cut off; the new voice
    /// comes last. A note the kit does not answer to changes nothing.
    pub fn note_on(&mut self, note: u8, slots: &[(i32, G)])
        requires
            old(self).can_start(note, slots@),
        ensures
            final(self).voices() == old(self).voices_after_note_on(note, slots@),
            final(self).bank() == old(self).bank(),
            final(self).note_map() == old(self).note_map(),
            old(self).wf() ==> final(self).wf(),
            groups_distinct(old(self).voices()) ==> groups_distinct(final(self).voices()),
            old(self).voice_groups_mapped() ==> final(self).voice_groups_mapped(),
    {
        if let Some(sample_sel) = self.voice_group(note) {
            let param = slots[sample_sel];
            let sample_i = param.0 as usize;
            let sample = (sample_sel, sample_i);
            let sample_len = self.samples[sample_sel][sample_i].0[0].len();
            let sample_cursor = PlayingSample::new(sample, sample_len, param.1);
            self.remove_group(sample_sel);
            proof {
                lemma_filter_keeps(old(self).voices(), other_group::<G>(sample_sel));
            }
            self.playing_samples.push(sample_cursor);
            proof {
                assert(self.frames(sample_sel as int, sample_i as int) == old(self).frames(
                    sample_sel as int,
                    sample_i as int,
                ));
                let vs = self.voices();
                let n = vs.len() - 1;
                if groups_distinct(old(self).voices()) {
                    assert forall|i: int, j: int| 0 <= i < j < vs.len() implies #[trigger] vs[i].sample.0
                        != #[trigger] vs[j].sample.0 by {
                        if j == n {
                            assert(other_group::<G>(sample_sel)(vs[i]));
                        }
                    }
                }
                if old(self).voice_groups_mapped() {
                    assert(self.note_map().dom().contains(note));
                    assert forall|k: int| 0 <= k < vs.len() implies self.note_map().values().contains(
                        #[trigger] vs[k].sample.0,
                    ) by {
                        if k == n {
                            assert(self.note_map()[note] == vs[k].sample.0);
                        }
                    }
                }
                if old(self).wf() {
                    assert forall|k: int| 0 <= k < vs.len() implies self.voice_fits(#[trigger] vs[k]) by {
                        if k < n {
                            assert(vs[k] == without_group(old(self).voices(), sample_sel)[k]);
                        }
                    }
                }
            }
        }
    }

    /// The voices now sounding, oldest first.
    pub fn playing_samples(&self) -> (r: &Vec<PlayingSample<G>>)
        ensures
            r@ == self.voices(),
    {
        &self.playing_samples
    }
}

/// Filtering twice by the same predicate is filtering once.
proof fn lemma_filter_twice<A>(s: Seq<A>, p: spec_fn(A) -> bool)
    ensures
        s.filter(p).filter(p) == s.filter(p),
    decreases s.len(),
{
    reveal(Seq::filter);
    if s.len() > 0 {
        lemma_filter_twice(s.drop_last(), p);
        let f = s.drop_last().filter(p);
        if p(s.last()) {
            f.lemma_filter_push(s.last(), p);
        }
    }
}

/// Law: a note-off right after a note-on of the same note leaves the same
/// voices as the note-off alone would: the voice the note-on started is
/// gone, and nothing else the note-on did remains.
pub proof fn lemma_note_off_undoes_note_on<T, G>(e: OneNine<T, G>, note: u8, slots: Seq<(i32, G)>)
    requires
        e.note_map().contains_key(note),
        e.can_start(note, slots),
    ensures
        without_group(e.voices_after_note_on(note, slots), e.note_map()[note]) == without_group(
            e.voices(),
            e.note_map()[note],
        ),
{
    let group = e.note_map()[note];
    let kept = without_group(e.voices(), group);
    let index = slots[group as int].0 as usize;
    let v = fresh_voice(
        (group, index),
        e.frames(group as int, index as int).len() as usize,
        slots[group as int].1,
    );
    kept.lemma_filter_push(v, other_group::<G>(group));
    lemma_filter_twice(e.voices(), other_group::<G>(group));
}

/// Law: hitting a pad restarts its drum group. After a note-on of a note
/// that triggers a group, the new voice is the last one, it starts at the
/// first frame of the chosen sample, and no other voice plays that group.
pub proof fn lemma_note_on_restarts_group<T, G>(e: OneNine<T, G>, note: u8, slots: Seq<(i32, G)>)
    requires
        e.note_map().contains_key(note),
        e.can_start(note, slots),
    ensures
        ({
            let group = e.note_map()[note];
            let after = e.voices_after_note_on(note, slots);
            &&& after.len() > 0
            &&& after.last().sample == (group, slots[group as int].0 as usize)
            &&& after.last().position == 0
            &&& after.last().gain == slots[group as int].1
            &&& after.last().sample_len == e.bank()[group as int]@[slots[group as int].0 as int]@[0].len()
            &&& after.drop_last() == without_group(e.voices(), group)
            &&& forall|i: int| 0 <= i < after.len() - 1 ==> #[trigger] after[i].sample.0 != group
        }),
{
    let group = e.note_map()[note];
    let kept = without_group(e.voices(), group);
    lemma_filter_keeps(e.voices(), other_group::<G>(group));
    let after = e.voices_after_note_on(note, slots);
    assert forall|i: int| 0 <= i < after.len() - 1 implies #[trigger] after[i].sample.0 != group by {
        assert(after[i] == kept[i]);
        assert(other_group::<G>(group)(kept[i]));
    }
    assert(after.drop_last() =~= kept);
    let ls = e.bank()[group as int]@[slots[group as int].0 as int];
    assert(ls@[0] == ls.0@[0]@);
    assert(ls.0@[0]@.len() == ls.0@[0].len());
}

/// Law: taking a drum group's voice out of no voices leaves none.
pub proof fn lemma_without_group_empty<G>(group: usize)
    ensures
        without_group(Seq::<PlayingSample<G>>::empty(), group) == Seq::<PlayingSample<G>>::empty(),
{
    reveal(Seq::filter);
}

/// Law: taking the voices of drum group `group` out of `vs` followed by `v`
/// keeps `v`, in last place, exactly when `v` plays another group; the
/// voices before it are treated the same as without `v`. With the law above
/// this fixes the result on every list: every voice of another group is
/// kept, in order, and only voices of `group` go.
pub proof fn lemma_without_group_push<G>(vs: Seq<PlayingSample<G>>, v: PlayingSample<G>, group: usize)
    ensures
        without_group(vs.push(v), group) == if v.sample.0 != group {
            without_group(vs, group).push(v)
        } else {
            without_group(vs, group)
        },
{
    vs.lemma_filter_push(v, other_group::<G>(group));
}

/// Law: a frame over no voices leaves no voices.
pub proof fn lemma_survivors_empty<G>()
    ensures
        survivors(Seq::<PlayingSample<G>>::empty()) == Seq::<PlayingSample<G>>::empty(),
{
    reveal(Seq::filter);
    assert(Seq::<PlayingSample<G>>::empty().map_values(stepper::<G>()) =~= Seq::<
        PlayingSample<G>,
    >::empty());
}

/// Law: after a frame, the voices `vs` followed by `v` leave what `vs` alone
/// leaves, followed by `v` one frame further on when `v` still has a frame
/// after this one. So every voice that has not reached its end stays, in
/// order, one frame further on, whatever the other voices do; only voices
/// that reach their own end go.
pub proof fn lemma_survivors_push<G>(vs: Seq<PlayingSample<G>>, v: PlayingSample<G>)
    ensures
        survivors(vs.push(v)) == if v.position + 1 < v.sample_len {
            survivors(vs).push((PlayingSample { position: (v.position + 1) as usize, ..v }))
        } else {
            survivors(vs)
        },
{
    assert(vs.push(v).map_values(stepper::<G>()) =~= vs.map_values(stepper::<G>()).push(
        v.stepped(),
    ));
    vs.map_values(stepper::<G>()).lemma_filter_push(v.stepped(), unfinished::<G>());
}

/// Law: no voices give out nothing.
pub proof fn lemma_played_empty<T, G>(e: OneNine<T, G>)
    ensures
        e.played(Seq::<PlayingSample<G>>::empty()) == Seq::<(T, G)>::empty(),
{
    reveal(Seq::filter);
    assert(Seq::<PlayingSample<G>>::empty().filter(sounding::<G>()).map_values(e.frame_and_gain())
        =~= Seq::<(T, G)>::empty());
}

/// Law: the voices `vs` followed by `v` give out what `vs` alone gives out,
/// followed, when `v` has not reached its end, by the frame at `v`'s
/// position in the first channel of `v`'s sample in the bank, with `v`'s
/// gain.
pub proof fn lemma_played_push<T, G>(e: OneNine<T, G>, vs: Seq<PlayingSample<G>>, v: PlayingSample<G>)
    ensures
        e.played(vs.push(v)) == if v.position < v.sample_len {
            e.played(vs).push(
                (e.bank()[v.sample.0 as int]@[v.sample.1 as int]@[0][v.position as int], v.gain),
            )
        } else {
            e.played(vs)
        },
{
    vs.lemma_filter_push(v, sounding::<G>());
    let f = vs.filter(sounding::<G>());
    assert(f.push(v).map_values(e.frame_and_gain()) =~= f.map_values(e.frame_and_gain()).push(
        (e.frame_of(v), v.gain),
    ));
}

/// Law: the next frame can be mixed exactly when every voice that has not
/// reached its end names a sample in the bank with a first channel that
/// reaches past the voice's position.
pub proof fn lemma_frame_readable_exactly<T, G>(e: OneNine<T, G>)
    ensures
        e.frame_readable() <==> forall|k: int|
            0 <= k < e.voices().len() && #[trigger] e.voices()[k].position < e.voices()[k].sample_len
                ==> {
                let g = e.voices()[k].sample.0 as int;
                let i = e.voices()[k].sample.1 as int;
                &&& g < e.bank().len()
                &&& i < e.bank()[g]@.len()
                &&& e.bank()[g]@[i]@.len() > 0
                &&& e.voices()[k].position < e.bank()[g]@[i]@[0].len()
            },
{
    assert(forall|k: int|
        0 <= k < e.voices().len() ==> (is_sounding(#[trigger] e.voices()[k]) == (e.voices()[k].position
            < e.voices()[k].sample_len)));
}

/// Law: a note-on can be carried out exactly when the note triggers no
/// drum group, or `slots` has an entry for the note's group whose sample
/// index names a sample of that group in the bank with at least one
/// channel (any index of the group, from 0 on).
pub proof fn lemma_can_start_exactly<T, G>(e: OneNine<T, G>, note: u8, slots: Seq<(i32, G)>)
    ensures
        e.can_start(note, slots) <==> (!e.note_map().contains_key(note) || {
            let group = e.note_map()[note] as int;
            let index = slots[group].0 as int;
            &&& group < slots.len()
            &&& 0 <= index
            &&& group < e.bank().len()
            &&& index < e.bank()[group]@.len()
            &&& e.bank()[group]@[index]@.len() > 0
        }),
{
}

/// Voices in distinct drum groups, all below `n`, number at most `n`.
pub proof fn lemma_distinct_groups_bounded<G>(vs: Seq<PlayingSample<G>>, n: int)
    requires
        0 <= n,
        groups_distinct(vs),
        forall|k: int| 0 <= k < vs.len() ==> #[trigger] vs[k].sample.0 < n,
    ensures
        vs.len() <= n,
{
    let gs = vs.map_values(|v: PlayingSample<G>| v.sample.0 as int);
    assert(gs.no_duplicates()) by {
        assert forall|i: int, j: int| 0 <= i < gs.len() && 0 <= j < gs.len() && i != j implies gs[i]
            != gs[j] by {
            if i < j {
                assert(vs[i].sample.0 != vs[j].sample.0);
            } else {
                assert(vs[j].sample.0 != vs[i].sample.0);
            }
        }
    }
    gs.unique_seq_to_set();
    let range = vstd::set_lib::set_int_range(0, n);
    vstd::set_lib::lemma_int_range(0, n);
    assert(gs.to_set().subset_of(range)) by {
        assert forall|x: int| gs.to_set().contains(x) implies range.contains(x) by {
            let i = choose|i: int| 0 <= i < gs.len() && gs[i] == x;
            assert(vs[i].sample.0 < n);
        }
    }
    vstd::set_lib::lemma_len_subset(gs.to_set(), range);
}

/// Law: an engine that keeps its invariant never has more voices than its
/// bank has drum groups, since each voice plays a group of the bank and no
/// two voices play the same group.
pub proof fn lemma_voice_count_bounded<T, G>(e: OneNine<T, G>)
    requires
        e.wf(),
    ensures
        e.voices().len() <= e.bank().len(),
{
    assert forall|k: int| 0 <= k < e.voices().len() implies #[trigger] e.voices()[k].sample.0
        < e.bank().len() by {
        assert(e.voice_fits(e.voices()[k]));
    }
    lemma_distinct_groups_bounded(e.voices(), e.bank().len() as int);
}

/// Law: the kit's note map answers to exactly the notes 36, 37, 39, 40, 42,
/// 46, 57 and 59, sends no two of them to the same drum group, and uses
/// exactly the groups 0 to 7; so a mapped note always selects one of the
/// eight drums.
pub proof fn lemma_default_note_map_kit()
    ensures
        default_note_map().dom() == set![36u8, 37u8, 39u8, 40u8, 42u8, 46u8, 57u8, 59u8],
        default_note_map().values() == set![0usize, 1usize, 2usize, 3usize, 4usize, 5usize, 6usize, 7usize],
        forall|a: u8, b: u8|
            default_note_map().contains_key(a) && default_note_map().contains_key(b) && a != b
                ==> #[trigger] default_note_map()[a] != #[trigger] default_note_map()[b],
{
    let m = default_note_map();
    assert(m.dom() =~= set![36u8, 37u8, 39u8, 40u8, 42u8, 46u8, 57u8, 59u8]);
    let vals = set![0usize, 1usize, 2usize, 3usize, 4usize, 5usize, 6usize, 7usize];
    assert forall|v: usize| m.values().contains(v) implies vals.contains(v) by {
        let k = choose|k: u8| m.dom().contains(k) && m[k] == v;
    }
    assert(m[36u8] == 0usize && m[57u8] == 1usize && m[39u8] == 2usize && m[42u8] == 3usize);
    assert(m[46u8] == 4usize && m[59u8] == 5usize && m[37u8] == 6usize && m[40u8] == 7usize);
    assert forall|v: usize| vals.contains(v) implies m.values().contains(v) by {
        let k: u8 = if v == 0 { 36 } else if v == 1 { 57 } else if v == 2 { 39 } else if v == 3 {
            42
        } else if v == 4 { 46 } else if v == 5 { 59 } else if v == 6 { 37 } else { 40 };
        assert(m.dom().contains(k) && m[k] == v);
    }
    assert(m.values() =~= vals);
}

/// Law: with the kit's note map, voices in distinct groups whose groups
/// are all triggered by some note number at most eight, one per drum.
pub proof fn lemma_kit_voice_bound<T, G>(e: OneNine<T, G>)
    requires
        e.note_map() == default_note_map(),
        groups_distinct(e.voices()),
        e.voice_groups_mapped(),
    ensures
        e.voices().len() <= 8,
{
    lemma_default_note_map_kit();
    assert forall|k: int| 0 <= k < e.voices().len() implies #[trigger] e.voices()[k].sample.0 < 8 by {
        assert(e.note_map().values().contains(e.voices()[k].sample.0));
    }
    lemma_distinct_groups_bounded(e.voices(), 8);
}

/// Law: a note-on or note-off of a note the map does not hold leaves the
/// voices as they were.
pub proof fn lemma_unmapped_note_ignored<T, G>(e: OneNine<T, G>, note: u8, slots: Seq<(i32, G)>)
    requires
        !e.note_map().contains_key(note),
    ensures
        e.voices_after_note_on(note, slots) == e.voices(),
{
}

/// Law: an engine that keeps its invariant can always mix its next frame.
pub proof fn lemma_wf_frame_readable<T, G>(e: OneNine<T, G>)
    requires
        e.wf(),
    ensures
        e.frame_readable(),
{
    assert forall|k: int| 0 <= k < e.voices().len() && is_sounding(#[trigger] e.voices()[k]) implies {
        &&& e.has_sample(e.voices()[k].sample.0 as int, e.voices()[k].sample.1 as int)
        &&& e.voices()[k].position < e.frames(
            e.voices()[k].sample.0 as int,
            e.voices()[k].sample.1 as int,
        ).len()
    } by {
        assert(e.voice_fits(e.voices()[k]));
    }
}

impl<T: Copy, G: Copy> OneNine<T, G> {
    /// Whether every sounding voice can read its next frame from the bank,
    /// so that `next_frame` can be carried out.
    pub fn can_mix_frame(&self) -> (b: bool)
        ensures
            b == self.frame_readable(),
    {
        let mut k: usize = 0;
        while k < self.playing_samples.len()
            invariant
                k <= self.playing_samples@.len(),
                forall|k2: int|
                    0 <= k2 < k && is_sounding(#[trigger] self.voices()[k2]) ==> {
                        &&& self.has_sample(self.voices()[k2].sample.0 as int, self.voices()[k2].sample.1 as int)
                        &&& self.voices()[k2].position < self.frames(
                            self.voices()[k2].sample.0 as int,
                            self.voices()[k2].sample.1 as int,
                        ).len()
                    },
            decreases self.playing_samples@.len() - k,
        {
            let v = self.playing_samples[k];
            assert(v == self.voices()[k as int]);
            if v.position < v.sample_len {
                let (group, index) = v.sample;
                if group >= self.samples.len() || index >= self.samples[group].len() {
                    return false;
                }
                if self.samples[group][index].0.len() == 0 {
                    return false;
                }
                if v.position >= self.samples[group][index].0[0].len() {
                    return false;
                }
            }
            k = k + 1;
        }
        true
    }

    /// Advances every voice by one frame. Gives out, for each voice that
    /// still had a frame, oldest first, that frame and the voice's gain;
    /// then drops the voices that have reached the end of their sample.
    pub fn next_frame(&mut self) -> (out: Vec<(T, G)>)
        requires
            old(self).frame_readable(),
        ensures
            out@ == old(self).frame_output(),
            final(self).voices() == survivors(old(self).voices()),
            final(self).bank() == old(self).bank(),
            final(self).note_map() == old(self).note_map(),
            old(self).wf() ==> final(self).wf(),
            groups_distinct(old(self).voices()) ==> groups_distinct(final(self).voices()),
            old(self).voice_groups_mapped() ==> final(self).voice_groups_mapped(),
    {
        let mut out: Vec<(T, G)> = Vec::new();
        let mut kept: Vec<PlayingSample<G>> = Vec::new();
        let mut k: usize = 0;
        while k < self.playing_samples.len()
            invariant
                k <= self.playing_samples@.len(),
                self.frame_readable(),
                out@ == self.playing_samples@.take(k as int).filter(sounding()).map_values(
                    self.frame_and_gain(),
                ),
                kept@ == self.playing_samples@.take(k as int).map_values(stepper()).filter(
                    unfinished(),
                ),
            decreases self.playing_samples@.len() - k,
        {
            let ghost vs = self.playing_samples@;
            let mut v = self.playing_samples[k];
            assert(v == vs[k as int]);
            let ghost v0 = v;
            proof {
                let t = vs.take(k as int);
                assert(vs.take(k + 1) =~= t.push(v0));
                t.lemma_filter_push(v0, sounding());
                assert(t.push(v0).map_values(stepper()) =~= t.map_values(stepper()).push(
                    v0.stepped(),
                ));
                t.map_values(stepper()).lemma_filter_push(v0.stepped(), unfinished());
                assert(t.filter(sounding()).push(v0).map_values(self.frame_and_gain())
                    =~= t.filter(sounding()).map_values(self.frame_and_gain()).push(
                    (self.frame_of(v0), v0.gain),
                ));
            }
            match v.step() {
                Some(sample_position) => {
                    let (group, index) = v.sample;
                    assert(is_sounding(self.voices()[k as int]));
                    out.push((self.samples[group][index].0[0][sample_position], v.gain));
                },
                None => {},
            }
            if !v.is_done() {
                kept.push(v);
            }
            k = k + 1;
        }
        proof {
            assert(self.playing_samples@.take(k as int) =~= self.playing_samples@);
        }
        self.playing_samples = kept;
        proof {
            let vs = old(self).voices();
            let ms = vs.map_values(stepper::<G>());
            lemma_filter_keeps(ms, unfinished::<G>());
            if groups_distinct(vs) {
                assert forall|i: int, j: int| 0 <= i < j < ms.len() implies #[trigger] ms[i].sample.0
                    != #[trigger] ms[j].sample.0 by {
                    assert(vs[i].sample.0 != vs[j].sample.0);
                }
            }
            if old(self).voice_groups_mapped() {
                assert forall|k2: int| 0 <= k2 < self.voices().len() implies self.note_map().values().contains(
                    #[trigger] self.voices()[k2].sample.0,
                ) by {
                    let x = self.voices()[k2];
                    assert(ms.contains(x));
                    let j = choose|j: int| 0 <= j < ms.len() && ms[j] == x;
                    assert(old(self).note_map().values().contains(vs[j].sample.0));
                }
            }
            if old(self).wf() {
                assert forall|k2: int| 0 <= k2 < self.voices().len() implies self.voice_fits(
                    #[trigger] self.voices()[k2],
                ) by {
                    let x = self.voices()[k2];
                    assert(ms.contains(x));
                    let j = choose|j: int| 0 <= j < ms.len() && ms[j] == x;
                    assert(old(self).voice_fits(vs[j]));
                }
            }
        }
        out
    }
}

} // verus!
