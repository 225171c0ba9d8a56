//! The soundpad: short sounds that are mixed into the stream on demand.
//!
//! What a sample is, how two are mixed and how a mix is limited is up to the user; the pad
//! decides which samples of which sounds are mixed where.

use crate::host;
use crate::host::lower_all;
use crate::text::same_text;
use vstd::prelude::*;

verus! {

/// No more sound files than this are loaded.
pub const MAX_SOUNDS: usize = 32;

/// Longer sounds are cut to this many samples: a minute at 48 kHz.
pub const MAX_SAMPLES: usize = 2_880_000;

/// No more sounds than this are heard at a time.
pub const MAX_VOICES: usize = 4;

struct Sound<S> {
    name: String,
    data: Vec<S>,
}

/// A sound that is being played.
#[derive(Debug, Clone, Copy)]
pub struct Voice {
    /// The number of the sound.
    pub sound: usize,
    /// The next sample of it.
    pub pos: usize,
}

/// The sounds and what is being played of them.
pub struct Soundpad<S> {
    sounds: Vec<Sound<S>>,
    active: Vec<Voice>,
}

/// What a pad holds: the sounds by name and samples, and the voices, oldest first.
#[verifier::ext_equal]
pub struct PadView<S> {
    pub sounds: Seq<(Seq<char>, Seq<S>)>,
    pub voices: Seq<Voice>,
}

impl<S> View for Soundpad<S> {
    type V = PadView<S>;

    closed spec fn view(&self) -> PadView<S> {
        PadView {
            sounds: self.sounds@.map_values(|s: Sound<S>| (s.name@, s.data@)),
            voices: self.active@,
        }
    }
}

impl<S> PadView<S> {
    /// The voice is amid a sound of the pad.
    pub open spec fn sounding(self, v: Voice) -> bool {
        v.sound < self.sounds.len() && v.pos < self.sounds[v.sound as int].1.len()
    }

    /// The invariant of a pad: no sound is empty or too long, and the voices are few and each
    /// amid its sound.
    pub open spec fn wf(self) -> bool {
        &&& forall|i: int|
            0 <= i < self.sounds.len() ==> 0 < (#[trigger] self.sounds[i]).1.len() <= MAX_SAMPLES
        &&& self.voices.len() <= MAX_VOICES
        &&& forall|k: int| 0 <= k < self.voices.len() ==> self.sounding(#[trigger] self.voices[k])
    }

    /// The pad after the sound `data` was offered.
    pub open spec fn with_sound(self, name: Seq<char>, data: Seq<S>) -> Self {
        if data.len() == 0 {
            self
        } else {
            PadView {
                sounds: self.sounds.push(
                    (
                        name,
                        if data.len() > MAX_SAMPLES {
                            data.take(MAX_SAMPLES as int)
                        } else {
                            data
                        },
                    ),
                ),
                ..self
            }
        }
    }

    /// The pad after the sound `id` was started. The oldest voice goes when there are too many.
    pub open spec fn played(self, id: int) -> Self {
        if id < self.sounds.len() {
            PadView {
                voices: (if self.voices.len() >= MAX_VOICES {
                    self.voices.skip(1)
                } else {
                    self.voices
                }).push(Voice { sound: id as usize, pos: 0 }),
                ..self
            }
        } else {
            self
        }
    }

    /// What is heard of a voice in `n` samples: what is left of its sound, or the next `n`
    /// samples of it.
    pub open spec fn heard(self, v: Voice, n: int) -> Seq<S> {
        let data = self.sounds[v.sound as int].1;
        if n < data.len() - v.pos {
            data.subrange(v.pos as int, v.pos + n)
        } else {
            data.skip(v.pos as int)
        }
    }

    /// The voices, of the first `k`, that go on after `n` more samples, each where it is then.
    pub open spec fn going_on(self, k: int, n: int) -> Seq<Voice>
        decreases k,
    {
        if k <= 0 {
            Seq::empty()
        } else {
            let w = moved(self, self.voices[k - 1], n);
            if self.sounding(w) {
                self.going_on(k - 1, n).push(w)
            } else {
                self.going_on(k - 1, n)
            }
        }
    }

    /// The pad after `n` samples were mixed.
    pub open spec fn advanced(self, n: int) -> Self {
        PadView { voices: self.going_on(self.voices.len() as int, n), ..self }
    }
}

/// The voice `v` after `n` more samples.
pub open spec fn moved<S>(pad: PadView<S>, v: Voice, n: int) -> Voice {
    Voice { pos: (v.pos + pad.heard(v, n).len()) as usize, ..v }
}

/// `after` is `before` with the samples of `part` mixed in from its start.
pub open spec fn layer<S, F: Fn(S, S) -> S>(
    mix: F,
    before: Seq<S>,
    part: Seq<S>,
    after: Seq<S>,
) -> bool {
    &&& after.len() == before.len()
    &&& forall|i: int|
        0 <= i < after.len() ==> if i < part.len() {
            call_ensures(mix, (before[i], part[i]), #[trigger] after[i])
        } else {
            after[i] == before[i]
        }
}

/// `after` is `before` with every sample limited.
pub open spec fn limited<S, G: Fn(S) -> S>(limit: G, before: Seq<S>, after: Seq<S>) -> bool {
    &&& after.len() == before.len()
    &&& forall|i: int|
        0 <= i < after.len() ==> call_ensures(limit, (before[i],), #[trigger] after[i])
}

/// `layers` leads from `before` over the first voices of the pad, mixed in one after another.
pub open spec fn mix_layers<S, F: Fn(S, S) -> S>(
    pad: PadView<S>,
    mix: F,
    before: Seq<S>,
    layers: Seq<Seq<S>>,
) -> bool {
    &&& layers.len() > 0
    &&& layers[0] == before
    &&& forall|k: int|
        0 <= k < layers.len() - 1 ==> layer(
            mix,
            #[trigger] layers[k],
            pad.heard(pad.voices[k], before.len() as int),
            layers[k + 1],
        )
}

/// `after` is `before` with all voices of the pad mixed in, oldest first, and then limited. A
/// pad that plays nothing leaves everything as it is.
pub open spec fn mixed<S, F: Fn(S, S) -> S, G: Fn(S) -> S>(
    pad: PadView<S>,
    mix: F,
    limit: G,
    before: Seq<S>,
    after: Seq<S>,
) -> bool {
    if pad.voices.len() == 0 {
        after == before
    } else {
        exists|layers: Seq<Seq<S>>| #[trigger]
            mix_layers(pad, mix, before, layers) && layers.len() == pad.voices.len() + 1
                && limited(limit, layers.last(), after)
    }
}

/// The extensions, in lower case, of the files that sounds are read from.
pub open spec fn sound_extension(lower: Seq<char>) -> bool {
    lower == "mp3"@ || lower == "ogg"@ || lower == "wav"@ || lower == "flac"@
}

/// Whether sounds are read from files with this extension, given in lower case.
pub fn is_sound_extension(lower: &str) -> (r: bool)
    ensures
        r == sound_extension(lower@),
{
    same_text(lower, "mp3") || same_text(lower, "ogg") || same_text(lower, "wav") || same_text(
        lower,
        "flac",
    )
}

/// The file has an extension, given in lower case, that sounds are read from.
pub open spec fn is_sound_file(lower: Option<Seq<char>>) -> bool {
    lower matches Some(e) && sound_extension(e)
}

/// The numbers of the sound files among the first `k`.
pub open spec fn sound_files(lower: Seq<Option<Seq<char>>>, k: int) -> Seq<usize>
    decreases k,
{
    if k <= 0 {
        Seq::empty()
    } else if is_sound_file(lower[k - 1]) {
        sound_files(lower, k - 1).push((k - 1) as usize)
    } else {
        sound_files(lower, k - 1)
    }
}

/// The first sound files, by number, as many as there is place for.
pub open spec fn first_files(lower: Seq<Option<Seq<char>>>, k: int) -> Seq<usize> {
    let all = sound_files(lower, k);
    if all.len() > MAX_SOUNDS {
        all.take(MAX_SOUNDS as int)
    } else {
        all
    }
}

/// The files to load, by number, of files with these extensions, which are in lower case: the
/// first sound files, as many as there is place for.
pub fn choose_lowered(lower: &Vec<Option<String>>) -> (r: Vec<usize>)
    ensures
        r@ == first_files(
            lower@.map_values(|e: Option<String>| host::name_text(e)),
            lower@.len() as int,
        ),
{
    let ghost all = lower@.map_values(|e: Option<String>| host::name_text(e));
    let mut out: Vec<usize> = Vec::new();
    let mut i: usize = 0;
    while i < lower.len()
        invariant
            i <= lower@.len(),
            all == lower@.map_values(|e: Option<String>| host::name_text(e)),
            out@ == first_files(all, i as int),
        decreases lower@.len() - i,
    {
        let chosen: bool = match &lower[i] {
            Some(e) => is_sound_extension(e.as_str()),
            None => false,
        };
        assert(all[i as int] == host::name_text(lower@[i as int]));
        assert(chosen == is_sound_file(all[i as int]));
        if chosen && out.len() < MAX_SOUNDS {
            out.push(i);
        }
        i = i + 1;
        assert(out@ =~= first_files(all, i as int));
    }
    out
}

/// The files to load, by number, of files with these extensions; upper and lower case are the
/// same.
pub fn choose_files(extensions: &Vec<Option<String>>) -> (r: Vec<usize>)
    ensures
        r@ == first_files(
            extensions@.map_values(|e: Option<String>| host::lowered(e)),
            extensions@.len() as int,
        ),
{
    let lower: Vec<Option<String>> = lower_all(extensions);
    choose_lowered(&lower)
}

/// What reading on in a sound file brought.
#[derive(Debug, Clone, Copy, PartialEq, Eq, Structural)]
pub enum DecodeEvent {
    /// The file is over, or cannot be read further.
    NoPacket,
    /// A packet of another track.
    OtherTrack,
    /// A packet was decoded; this many samples are gathered by now.
    Decoded { gathered: usize },
    /// A damaged packet.
    Damaged,
    /// The decoder failed for good.
    Failed,
}

/// Whether to read on in a sound file: foreign and damaged packets are passed over, the end,
/// a failure and an overlong file end it.
pub fn read_on(event: DecodeEvent) -> (r: bool)
    ensures
        r == match event {
            DecodeEvent::NoPacket => false,
            DecodeEvent::OtherTrack => true,
            DecodeEvent::Decoded { gathered } => gathered <= 2 * MAX_SAMPLES,
            DecodeEvent::Damaged => true,
            DecodeEvent::Failed => false,
        },
{
    match event {
        DecodeEvent::NoPacket => false,
        DecodeEvent::OtherTrack => true,
        DecodeEvent::Decoded { gathered } => gathered <= MAX_SAMPLES * 2,
        DecodeEvent::Damaged => true,
        DecodeEvent::Failed => false,
    }
}

impl<S: Copy> Soundpad<S> {
    /// A pad without sounds.
    pub fn empty() -> (r: Self)
        ensures
            r@ == (PadView::<S> { sounds: Seq::empty(), voices: Seq::empty() }),
            r@.wf(),
    {
        let r = Soundpad { sounds: Vec::new(), active: Vec::new() };
        assert(r@.sounds =~= Seq::empty());
        r
    }

    /// Adds a sound, cut to the longest length that is kept. One without samples is not taken.
    pub fn add_sound(&mut self, name: String, data: Vec<S>) -> (r: bool)
        requires
            old(self)@.wf(),
        ensures
            r == (data@.len() > 0),
            final(self)@ == old(self)@.with_sound(name@, data@),
            final(self)@.wf(),
    {
        if data.len() == 0 {
            return false;
        }
        let mut data = data;
        if data.len() > MAX_SAMPLES {
            data.truncate(MAX_SAMPLES);
        }
        let ghost before = self@;
        let ghost entry = (name@, data@);
        self.sounds.push(Sound { name, data });
        assert(self@.sounds =~= before.sounds.push(entry));
        assert forall|k: int| 0 <= k < self@.voices.len() implies self@.sounding(
            #[trigger] self@.voices[k],
        ) by {
            assert(before.sounding(before.voices[k]));
        }
        true
    }

    /// The names of the sounds, in order.
    pub fn names(&self) -> (r: Vec<String>)
        ensures
            r@.len() == self@.sounds.len(),
            forall|i: int| 0 <= i < r@.len() ==> (#[trigger] r@[i])@ == self@.sounds[i].0,
    {
        let mut out: Vec<String> = Vec::new();
        let mut i: usize = 0;
        while i < self.sounds.len()
            invariant
                i <= self.sounds@.len(),
                out@.len() == i,
                forall|j: int| 0 <= j < i ==> (#[trigger] out@[j])@ == self@.sounds[j].0,
            decreases self.sounds@.len() - i,
        {
            out.push(self.sounds[i].name.clone());
            i = i + 1;
        }
        out
    }

    /// Whether there are no sounds.
    pub fn is_empty(&self) -> (r: bool)
        ensures
            r == (self@.sounds.len() == 0),
    {
        self.sounds.len() == 0
    }

    /// Starts the sound of this number; there may be none.
    pub fn play(&mut self, id: usize)
        requires
            old(self)@.wf(),
        ensures
            final(self)@ == old(self)@.played(id as int),
            final(self)@.wf(),
    {
        let ghost before = self@;
        if id < self.sounds.len() {
            if self.active.len() >= MAX_VOICES {
                let _ = self.active.remove(0);
                assert(self.active@ =~= before.voices.skip(1));
            }
            self.active.push(Voice { sound: id, pos: 0 });
            assert(self@ == before.played(id as int));
            assert(before.sounds[id as int].1.len() > 0);
            assert forall|k: int| 0 <= k < self@.voices.len() implies self@.sounding(
                #[trigger] self@.voices[k],
            ) by {
                if before.voices.len() >= MAX_VOICES && k + 1 < before.voices.len() {
                    assert(before.sounding(before.voices[k + 1]));
                } else if before.voices.len() < MAX_VOICES && k < before.voices.len() {
                    assert(before.sounding(before.voices[k]));
                }
            }
        }
    }

    /// Stops all sounds.
    pub fn stop_all(&mut self)
        ensures
            final(self)@ == (PadView { voices: Seq::empty(), ..old(self)@ }),
            old(self)@.wf() ==> final(self)@.wf(),
    {
        self.active.clear();
        assert(self@.voices =~= Seq::empty());
    }

    /// Whether anything is being played.
    pub fn playing(&self) -> (r: bool)
        ensures
            r == (self@.voices.len() > 0),
    {
        self.active.len() > 0
    }

    /// Mixes one voice into `out`.
    fn mix_voice<F: Fn(S, S) -> S>(&self, k: usize, out: &mut [S], mix: &F) -> (heard: usize)
        requires
            self@.wf(),
            k < self@.voices.len(),
            forall|a: S, b: S| call_requires(*mix, (a, b)),
        ensures
            layer(
                *mix,
                old(out)@,
                self@.heard(self@.voices[k as int], old(out)@.len() as int),
                final(out)@,
            ),
            heard == self@.heard(self@.voices[k as int], old(out)@.len() as int).len(),
    {
        let v: Voice = self.active[k];
        assert(self@.sounding(self@.voices[k as int]));
        let data: &Vec<S> = &self.sounds[v.sound].data;
        let ghost whole = self@.sounds[v.sound as int].1;
        assert(whole == data@);
        let left: usize = data.len() - v.pos;
        let n: usize = if out.len() < left {
            out.len()
        } else {
            left
        };
        let ghost before = out@;
        let ghost part = self@.heard(v, before.len() as int);
        let mut i: usize = 0;
        while i < n
            invariant
                i <= n,
                n == part.len(),
                n <= out@.len(),
                v.pos + n <= data@.len() <= MAX_SAMPLES,
                part == data@.subrange(v.pos as int, v.pos + n),
                out@.len() == before.len(),
                before == old(out)@,
                forall|a: S, b: S| call_requires(*mix, (a, b)),
                forall|j: int|
                    0 <= j < i ==> call_ensures(*mix, (before[j], part[j]), #[trigger] out@[j]),
                forall|j: int| i <= j < out@.len() ==> #[trigger] out@[j] == before[j],
            decreases n - i,
        {
            assert(part[i as int] == data@[v.pos + i]);
            let y: S = mix(out[i], data[v.pos + i]);
            out[i] = y;
            i = i + 1;
        }
        n
    }

    /// Mixes what is being played into `out` with `mix`, limits the outcome with `limit`, and
    /// moves on; sounds that are over go. Where nothing is being played nothing is done.
    pub fn mix_into<F: Fn(S, S) -> S, G: Fn(S) -> S>(&mut self, out: &mut [S], mix: F, limit: G)
        requires
            old(self)@.wf(),
            forall|a: S, b: S| call_requires(mix, (a, b)),
            forall|a: S| call_requires(limit, (a,)),
        ensures
            mixed(old(self)@, mix, limit, old(out)@, final(out)@),
            final(self)@ == old(self)@.advanced(old(out)@.len() as int),
            final(out)@.len() == old(out)@.len(),
            final(self)@.wf(),
    {
        let ghost pad = self@;
        let ghost before = out@;
        if self.active.len() == 0 {
            assert(pad.advanced(before.len() as int).voices =~= pad.voices);
            return ;
        }
        let count: usize = self.active.len();
        let mut kept: Vec<Voice> = Vec::new();
        let ghost mut layers: Seq<Seq<S>> = seq![out@];
        let mut k: usize = 0;
        while k < count
            invariant
                k <= count,
                self@ == pad,
                pad.wf(),
                count == pad.voices.len(),
                before == old(out)@,
                out@.len() == before.len(),
                forall|a: S, b: S| call_requires(mix, (a, b)),
                layers.len() == k + 1,
                layers.last() == out@,
                mix_layers(pad, mix, before, layers),
                kept@ == pad.going_on(k as int, before.len() as int),
                kept@.len() <= k,
                forall|j: int| 0 <= j < kept@.len() ==> pad.sounding(#[trigger] kept@[j]),
            decreases count - k,
        {
            assert(pad.sounding(pad.voices[k as int]));
            let ghost prev = layers;
            let heard: usize = self.mix_voice(k, out, &mix);
            let v: Voice = self.active[k];
            let pos: usize = v.pos + heard;
            proof {
                layers = prev.push(out@);
                assert forall|j: int| 0 <= j < layers.len() - 1 implies layer(
                    mix,
                    #[trigger] layers[j],
                    pad.heard(pad.voices[j], before.len() as int),
                    layers[j + 1],
                ) by {
                    if j < prev.len() - 1 {
                        assert(layers[j] == prev[j] && layers[j + 1] == prev[j + 1]);
                    }
                }
            }
            if pos < self.sounds[v.sound].data.len() {
                kept.push(Voice { sound: v.sound, pos });
            }
            k = k + 1;
        }
        self.active = kept;
        let ghost last = out@;
        let mut i: usize = 0;
        let n: usize = out.len();
        while i < n
            invariant
                i <= n,
                n == out@.len(),
                out@.len() == last.len(),
                forall|a: S| call_requires(limit, (a,)),
                forall|j: int| 0 <= j < i ==> call_ensures(limit, (last[j],), #[trigger] out@[j]),
                forall|j: int| i <= j < n ==> #[trigger] out@[j] == last[j],
            decreases n - i,
        {
            let y: S = limit(out[i]);
            out[i] = y;
            i = i + 1;
        }
        assert(limited(limit, layers.last(), out@));
        assert(mix_layers(pad, mix, before, layers) && layers.len() == pad.voices.len() + 1
            && limited(limit, layers.last(), out@));
        assert(self@.sounds =~= pad.sounds);
    }
}

/// A new sound is heard from its start; the other voices are not disturbed by it, but for the
/// oldest one, which goes when there are too many.
pub proof fn lemma_play_starts_sound<S>(pad: PadView<S>, id: usize, n: int)
    requires
        pad.wf(),
        id < pad.sounds.len(),
        n >= pad.sounds[id as int].1.len(),
    ensures
        pad.played(id as int).wf(),
        pad.played(id as int).sounds == pad.sounds,
        pad.played(id as int).voices.last() == (Voice { sound: id, pos: 0 }),
        pad.played(id as int).voices.drop_last() == if pad.voices.len() < MAX_VOICES {
            pad.voices
        } else {
            pad.voices.skip(1)
        },
        pad.heard(Voice { sound: id, pos: 0 }, n) == pad.sounds[id as int].1,
{
    let p = pad.played(id as int);
    assert(p.voices.drop_last() =~= if pad.voices.len() < MAX_VOICES {
        pad.voices
    } else {
        pad.voices.skip(1)
    });
    assert forall|k: int| 0 <= k < p.voices.len() implies p.sounding(#[trigger] p.voices[k]) by {
        if k < p.voices.len() - 1 {
            assert(p.voices[k] == p.voices.drop_last()[k]);
            if pad.voices.len() < MAX_VOICES {
                assert(pad.sounding(pad.voices[k]));
            } else {
                assert(pad.sounding(pad.voices[k + 1]));
            }
        } else {
            assert(pad.sounds[id as int].1.len() > 0);
        }
    }
    assert(pad.sounds[id as int].1.skip(0) =~= pad.sounds[id as int].1);
}

/// A number that no sound has is ignored.
pub proof fn lemma_unknown_sound_ignored<S>(pad: PadView<S>, id: int)
    requires
        id >= pad.sounds.len(),
    ensures
        pad.played(id) == pad,
{
}

/// A pad that was stopped is not heard.
pub proof fn lemma_stopped_pad_silent<S, F: Fn(S, S) -> S, G: Fn(S) -> S>(
    pad: PadView<S>,
    mix: F,
    limit: G,
    before: Seq<S>,
    after: Seq<S>,
)
    requires
        mixed(PadView { voices: Seq::empty(), ..pad }, mix, limit, before, after),
    ensures
        after == before,
{
}

/// Sounds are heard without a break: what is heard of a voice in two goes is what is heard of
/// it in one, and it is over exactly when nothing of its sound is left.
pub proof fn lemma_sound_unbroken<S>(pad: PadView<S>, v: Voice, n: int, m: int)
    requires
        pad.wf(),
        pad.sounding(v),
        n >= 0,
        m >= 0,
    ensures
        pad.sounding(moved(pad, v, n)) <==> n < pad.sounds[v.sound as int].1.len() - v.pos,
        pad.sounding(moved(pad, v, n)) ==> pad.heard(v, n + m) == pad.heard(v, n) + pad.heard(
            moved(pad, v, n),
            m,
        ),
        !pad.sounding(moved(pad, v, n)) ==> pad.heard(v, n + m) == pad.heard(v, n),
{
    let data = pad.sounds[v.sound as int].1;
    assert(0 < pad.sounds[v.sound as int].1.len() <= MAX_SAMPLES);
    let w = moved(pad, v, n);
    if pad.sounding(w) {
        assert(pad.heard(v, n + m) =~= pad.heard(v, n) + pad.heard(w, m));
    } else {
        assert(pad.heard(v, n + m) =~= pad.heard(v, n));
    }
}

/// Mixing loses no voice that is not over, and keeps their order.
pub proof fn lemma_voices_kept<S>(pad: PadView<S>, n: int)
    requires
        pad.wf(),
        forall|k: int|
            0 <= k < pad.voices.len() ==> pad.sounding(
                moved(pad, #[trigger] pad.voices[k], n),
            ),
    ensures
        pad.advanced(n).voices == pad.voices.map_values(|v: Voice| moved(pad, v, n)),
{
    lemma_going_on_all(pad, pad.voices.len() as int, n);
    assert(pad.voices.take(pad.voices.len() as int) =~= pad.voices);
}

/// While no voice is over, all of them go on.
proof fn lemma_going_on_all<S>(pad: PadView<S>, k: int, n: int)
    requires
        0 <= k <= pad.voices.len(),
        forall|j: int|
            0 <= j < pad.voices.len() ==> pad.sounding(
                moved(pad, #[trigger] pad.voices[j], n),
            ),
    ensures
        pad.going_on(k, n) == pad.voices.take(k).map_values(|v: Voice| moved(pad, v, n)),
    decreases k,
{
    if k > 0 {
        lemma_going_on_all(pad, k - 1, n);
        assert(pad.sounding(moved(pad, pad.voices[k - 1], n)));
    }
    assert(pad.going_on(k, n) =~= pad.voices.take(k).map_values(|v: Voice| moved(pad, v, n)));
}

} // verus!
