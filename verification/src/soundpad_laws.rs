//! What the soundpad does, operation by operation.

use crate::host;
use crate::soundpad;
use crate::soundpad::{DecodeEvent, PadView, Soundpad, Voice};
use vstd::prelude::*;

verus! {

/// Where a voice is after `n` more samples: that much further, at the end of its sound at most.
pub open spec fn position_after<S>(pad: PadView<S>, v: Voice, n: int) -> int {
    let len = pad.sounds[v.sound as int].1.len();
    if v.pos + n < len {
        v.pos + n
    } else {
        len as int
    }
}

/// The voice is not over after `n` more samples.
pub open spec fn goes_on<S>(pad: PadView<S>, v: Voice, n: int) -> bool {
    v.pos + n < pad.sounds[v.sound as int].1.len()
}

/// A voice that is amid its sound moves on by as many samples as are heard of it: the next `n`
/// samples of its sound, or as many as are left.
pub proof fn lemma_voice_heard<S>(pad: PadView<S>, v: Voice, n: int)
    requires
        pad.wf(),
        v.sound < pad.sounds.len(),
        v.pos < pad.sounds[v.sound as int].1.len(),
        n >= 0,
    ensures
        pad.sounding(v),
        pad.heard(v, n).len() == position_after(pad, v, n) - v.pos,
        forall|i: int|
            0 <= i < pad.heard(v, n).len() ==> #[trigger] pad.heard(v, n)[i]
                == pad.sounds[v.sound as int].1[v.pos + i],
        soundpad::moved(pad, v, n).sound == v.sound,
        soundpad::moved(pad, v, n).pos == position_after(pad, v, n),
        pad.sounding(soundpad::moved(pad, v, n)) <==> goes_on(pad, v, n),
{
    assert(0 < pad.sounds[v.sound as int].1.len() <= soundpad::MAX_SAMPLES);
}

/// The voice where it is after `n` more samples.
pub open spec fn moved_on<S>(pad: PadView<S>, n: int) -> spec_fn(Voice) -> Voice {
    |v: Voice| Voice { sound: v.sound, pos: position_after(pad, v, n) as usize }
}

/// Whether a voice is still amid its sound.
pub open spec fn still_amid<S>(pad: PadView<S>) -> spec_fn(Voice) -> bool {
    |v: Voice| v.pos < pad.sounds[v.sound as int].1.len()
}

/// Of the first `k` voices those that are not over go on, in order.
proof fn lemma_going_on<S>(pad: PadView<S>, k: int, n: int)
    requires
        pad.wf(),
        n >= 0,
        0 <= k <= pad.voices.len(),
    ensures
        pad.going_on(k, n) == pad.voices.take(k).map_values(moved_on(pad, n)).filter(
            still_amid(pad),
        ),
    decreases k,
{
    reveal(Seq::filter);
    let s = pad.voices.take(k).map_values(moved_on(pad, n));
    if k > 0 {
        lemma_going_on(pad, k - 1, n);
        let v = pad.voices[k - 1];
        assert(pad.sounding(v));
        lemma_voice_heard(pad, v, n);
        assert(0 < pad.sounds[v.sound as int].1.len() <= soundpad::MAX_SAMPLES);
        assert(s.drop_last() =~= pad.voices.take(k - 1).map_values(moved_on(pad, n)));
        assert(s.last() == moved_on(pad, n)(v));
        assert(s.last() == soundpad::moved(pad, v, n));
    } else {
        assert(s =~= Seq::empty());
    }
}

/// A voice ends by its own end alone: of all voices exactly those go on whose sound is not over,
/// each where it is then, in the same order, whatever becomes of the others.
pub proof fn lemma_voices_end_by_themselves<S>(pad: PadView<S>, n: int)
    requires
        pad.wf(),
        n >= 0,
    ensures
        pad.advanced(n).sounds == pad.sounds,
        pad.advanced(n).voices == pad.voices.map_values(moved_on(pad, n)).filter(
            still_amid(pad),
        ),
        forall|k: int|
            0 <= k < pad.voices.len() && goes_on(pad, #[trigger] pad.voices[k], n)
                ==> pad.advanced(n).voices.contains(
                Voice { sound: pad.voices[k].sound, pos: (pad.voices[k].pos + n) as usize },
            ),
        forall|v: Voice| #[trigger]
            pad.advanced(n).voices.contains(v) ==> exists|k: int|
                0 <= k < pad.voices.len() && goes_on(pad, #[trigger] pad.voices[k], n)
                    && v.sound == pad.voices[k].sound && v.pos == pad.voices[k].pos + n,
{
    lemma_going_on(pad, pad.voices.len() as int, n);
    assert(pad.voices.take(pad.voices.len() as int) =~= pad.voices);
    let all = pad.voices.map_values(moved_on(pad, n));
    let pred = still_amid(pad);
    assert forall|k: int| 0 <= k < pad.voices.len() && goes_on(
        pad,
        #[trigger] pad.voices[k],
        n,
    ) implies pad.advanced(n).voices.contains(
        Voice { sound: pad.voices[k].sound, pos: (pad.voices[k].pos + n) as usize },
    ) by {
        assert(pad.sounding(pad.voices[k]));
        assert(0 < pad.sounds[pad.voices[k].sound as int].1.len() <= soundpad::MAX_SAMPLES);
        let w = Voice { sound: pad.voices[k].sound, pos: (pad.voices[k].pos + n) as usize };
        assert(all[k] == w);
        assert(pred(all[k]));
        assert(all.contains(w));
    }
    assert forall|v: Voice| #[trigger] pad.advanced(n).voices.contains(v) implies exists|k: int|
        0 <= k < pad.voices.len() && goes_on(pad, #[trigger] pad.voices[k], n) && v.sound
            == pad.voices[k].sound && v.pos == pad.voices[k].pos + n by {
        let f = all.filter(pred);
        let i = choose|i: int| 0 <= i < f.len() && f[i] == v;
        assert(pred(f[i]));
        assert(f.contains(v));
        lemma_filter_from(all, pred, v);
        let k = choose|k: int| 0 <= k < all.len() && all[k] == v;
        assert(pad.sounding(pad.voices[k]));
        assert(0 < pad.sounds[pad.voices[k].sound as int].1.len() <= soundpad::MAX_SAMPLES);
        assert(all[k] == moved_on(pad, n)(pad.voices[k]));
        assert(goes_on(pad, pad.voices[k], n));
    }
}

/// What is filtered out of a sequence stood in it.
proof fn lemma_filter_from(s: Seq<Voice>, pred: spec_fn(Voice) -> bool, v: Voice)
    requires
        s.filter(pred).contains(v),
    ensures
        s.contains(v),
    decreases s.len(),
{
    reveal(Seq::filter);
    if s.len() > 0 {
        let t = s.drop_last();
        let i = choose|i: int| 0 <= i < s.filter(pred).len() && s.filter(pred)[i] == v;
        if t.filter(pred).contains(v) {
            lemma_filter_from(t, pred, v);
            let j = choose|j: int| 0 <= j < t.len() && t[j] == v;
            assert(s[j] == v);
        } else {
            if i < t.filter(pred).len() {
                assert(t.filter(pred)[i] == v);
            }
            assert(s[s.len() - 1] == v);
        }
    }
}

/// The sample `i` of a mix: the sample that was there, and on it the sample of each of the first
/// `k` voices that reaches so far, oldest first.
pub open spec fn mixed_at<S>(
    pad: PadView<S>,
    mix: spec_fn(S, S) -> S,
    was: S,
    i: int,
    k: int,
) -> S
    decreases k,
{
    if k <= 0 {
        was
    } else {
        let v = pad.voices[k - 1];
        let data = pad.sounds[v.sound as int].1;
        let below = mixed_at(pad, mix, was, i, k - 1);
        if v.pos + i < data.len() {
            mix(below, data[v.pos + i])
        } else {
            below
        }
    }
}

/// The layers of a mix hold, sample by sample, what the voices so far add up to.
proof fn lemma_layers<S, F: Fn(S, S) -> S>(
    pad: PadView<S>,
    mix: F,
    f: spec_fn(S, S) -> S,
    before: Seq<S>,
    layers: Seq<Seq<S>>,
    k: int,
    i: int,
)
    requires
        pad.wf(),
        soundpad::mix_layers(pad, mix, before, layers),
        layers.len() == pad.voices.len() + 1,
        forall|a: S, b: S, c: S| #[trigger] call_ensures(mix, (a, b), c) ==> c == f(a, b),
        0 <= k <= pad.voices.len(),
        0 <= i < before.len(),
    ensures
        layers[k].len() == before.len(),
        layers[k][i] == mixed_at(pad, f, before[i], i, k),
    decreases k,
{
    if k > 0 {
        lemma_layers(pad, mix, f, before, layers, k - 1, i);
        let v = pad.voices[k - 1];
        assert(pad.sounding(v));
        lemma_voice_heard(pad, v, before.len() as int);
        assert(soundpad::layer(
            mix,
            layers[k - 1],
            pad.heard(v, before.len() as int),
            layers[k - 1 + 1],
        ));
    }
}

/// Mixing: every sample is what was there with the samples of all voices that reach so far mixed
/// in, oldest first, and then limited. A pad that plays nothing leaves all as it is. Afterwards
/// exactly those voices go on whose sound is not over.
pub proof fn lemma_mixing<S: Copy, F: Fn(S, S) -> S, G: Fn(S) -> S>(
    pad: &mut Soundpad<S>,
    out: &mut [S],
    mix: F,
    limit: G,
    f: spec_fn(S, S) -> S,
    g: spec_fn(S) -> S,
)
    requires
        old(pad)@.wf(),
        forall|a: S, b: S, c: S| #[trigger] call_ensures(mix, (a, b), c) ==> c == f(a, b),
        forall|a: S, c: S| #[trigger] call_ensures(limit, (a,), c) ==> c == g(a),
        call_ensures(Soundpad::<S>::mix_into::<F, G>, (pad, out, mix, limit), ()),
    ensures
        final(out)@.len() == old(out)@.len(),
        old(pad)@.voices.len() == 0 ==> final(out)@ == old(out)@,
        old(pad)@.voices.len() > 0 ==> forall|i: int|
            0 <= i < final(out)@.len() ==> #[trigger] final(out)@[i] == g(
                mixed_at(old(pad)@, f, old(out)@[i], i, old(pad)@.voices.len() as int),
            ),
        final(pad)@.sounds == old(pad)@.sounds,
        final(pad)@.voices == old(pad)@.voices.map_values(
            moved_on(old(pad)@, old(out)@.len() as int),
        ).filter(still_amid(old(pad)@)),
{
    let p = old(pad)@;
    let before = old(out)@;
    let after = final(out)@;
    lemma_voices_end_by_themselves(p, before.len() as int);
    if p.voices.len() > 0 {
        let layers = choose|layers: Seq<Seq<S>>| #[trigger]
            soundpad::mix_layers(p, mix, before, layers) && layers.len() == p.voices.len() + 1
                && soundpad::limited(limit, layers.last(), after);
        assert forall|i: int| 0 <= i < after.len() implies #[trigger] after[i] == g(
            mixed_at(p, f, before[i], i, p.voices.len() as int),
        ) by {
            lemma_layers(p, mix, f, before, layers, p.voices.len() as int, i);
        }
    }
}

/// A sound is added at the end under its name, cut to a minute; one without samples is not taken.
/// The voices are not disturbed.
pub proof fn lemma_sound_added<S: Copy>(
    pad: &mut Soundpad<S>,
    name: String,
    data: Vec<S>,
    r: bool,
)
    requires
        call_ensures(Soundpad::<S>::add_sound, (pad, name, data), r),
    ensures
        r <==> data@.len() > 0,
        final(pad)@.voices == old(pad)@.voices,
        !r ==> final(pad)@.sounds == old(pad)@.sounds,
        r ==> {
            let sounds = final(pad)@.sounds;
            &&& sounds.drop_last() == old(pad)@.sounds
            &&& sounds.len() == old(pad)@.sounds.len() + 1
            &&& sounds.last().0 == name@
            &&& sounds.last().1 == data@.take(sounds.last().1.len() as int)
            &&& sounds.last().1.len() == (if data@.len() > 48000 * 60 {
                48000 * 60
            } else {
                data@.len()
            })
        },
{
    if data@.len() > 0 {
        let sounds = final(pad)@.sounds;
        assert(sounds.drop_last() =~= old(pad)@.sounds);
        assert(sounds.last().1 =~= data@.take(sounds.last().1.len() as int));
    }
}

/// A sound that is there is started at its first sample, as the newest voice; of four voices the
/// oldest makes room. A number that no sound has changes nothing.
pub proof fn lemma_sound_started<S: Copy>(pad: &mut Soundpad<S>, id: usize)
    requires
        old(pad)@.wf(),
        call_ensures(Soundpad::<S>::play, (pad, id), ()),
    ensures
        final(pad)@.sounds == old(pad)@.sounds,
        id >= old(pad)@.sounds.len() ==> final(pad)@.voices == old(pad)@.voices,
        id < old(pad)@.sounds.len() ==> {
            let voices = final(pad)@.voices;
            let others = voices.drop_last();
            &&& voices.len() > 0
            &&& voices.last().sound == id
            &&& voices.last().pos == 0
            &&& old(pad)@.voices.len() < 4 ==> others == old(pad)@.voices
            &&& old(pad)@.voices.len() == 4 ==> others == old(pad)@.voices.drop_first()
        },
{
    if id < old(pad)@.sounds.len() {
        let others = final(pad)@.voices.drop_last();
        if old(pad)@.voices.len() < 4 {
            assert(others =~= old(pad)@.voices);
        } else {
            assert(others =~= old(pad)@.voices.drop_first());
        }
    }
}

/// Stopping ends all voices and keeps the sounds.
pub proof fn lemma_all_stopped<S: Copy>(pad: &mut Soundpad<S>)
    requires
        call_ensures(Soundpad::<S>::stop_all, (pad,), ()),
    ensures
        final(pad)@.voices.len() == 0,
        final(pad)@.sounds == old(pad)@.sounds,
{
}

/// What a pad shows of itself, and what an empty one holds.
pub proof fn lemma_pad_getters<S: Copy>(
    pad: &Soundpad<S>,
    names: Vec<String>,
    empty: bool,
    playing: bool,
    fresh: Soundpad<S>,
)
    requires
        call_ensures(Soundpad::<S>::names, (pad,), names),
        call_ensures(Soundpad::<S>::is_empty, (pad,), empty),
        call_ensures(Soundpad::<S>::playing, (pad,), playing),
        call_ensures(Soundpad::<S>::empty, (), fresh),
    ensures
        names@.len() == pad@.sounds.len(),
        forall|i: int| 0 <= i < names@.len() ==> (#[trigger] names@[i])@ == pad@.sounds[i].0,
        empty <==> pad@.sounds.len() == 0,
        playing <==> pad@.voices.len() > 0,
        fresh@.sounds.len() == 0,
        fresh@.voices.len() == 0,
{
}

/// The chosen files are sound files, in order, none twice; where fewer than 32 are chosen, all
/// sound files are; else the first 32 of them are.
pub proof fn lemma_files_chosen(lower: &Vec<Option<String>>, r: Vec<usize>)
    requires
        call_ensures(soundpad::choose_lowered, (lower,), r),
    ensures
        r@.len() <= 32,
        forall|i: int, j: int| 0 <= i < j < r@.len() ==> #[trigger] r@[i] < #[trigger] r@[j],
        forall|i: int|
            0 <= i < r@.len() ==> #[trigger] r@[i] < lower@.len() && is_sound(
                lower@[r@[i] as int],
            ),
        forall|k: int|
            0 <= k < lower@.len() && is_sound(#[trigger] lower@[k]) && !r@.contains(k as usize)
                ==> r@.len() == 32 && r@.last() < k,
{
    let all = lower@.map_values(|e: Option<String>| host::name_text(e));
    let n = lower@.len() as int;
    let files = soundpad::sound_files(all, n);
    assert(lower.len() == lower@.len());
    lemma_sound_files(lower@, all, n);
    assert forall|k: int| 0 <= k < lower@.len() && is_sound(#[trigger] lower@[k]) && !r@.contains(
        k as usize,
    ) implies r@.len() == 32 && r@.last() < k by {
        assert(files.contains(k as usize));
        let i = choose|i: int| 0 <= i < files.len() && files[i] == k as usize;
        if i < r@.len() {
            assert(r@[i] == files[i]);
        }
        assert(files[31] < files[i]);
    }
}

/// Files are chosen by their extensions in lower case.
pub proof fn lemma_files_chosen_in_any_case(
    extensions: &Vec<Option<String>>,
    lower: Vec<Option<String>>,
    r: Vec<usize>,
    q: Vec<usize>,
)
    requires
        call_ensures(soundpad::choose_files, (extensions,), r),
        call_ensures(host::lower_all, (extensions,), lower),
        call_ensures(soundpad::choose_lowered, (&lower,), q),
    ensures
        lower@.len() == extensions@.len(),
        r@ == q@,
{
}

/// The name is one of a sound file: its extension, in lower case, is one of four.
pub open spec fn is_sound(lower: Option<String>) -> bool {
    match lower {
        Some(e) => e@ == "mp3"@ || e@ == "ogg"@ || e@ == "wav"@ || e@ == "flac"@,
        None => false,
    }
}

/// The sound files among the first `k` files, in order.
proof fn lemma_sound_files(lower: Seq<Option<String>>, all: Seq<Option<Seq<char>>>, k: int)
    requires
        0 <= k <= lower.len(),
        lower.len() <= usize::MAX,
        all == lower.map_values(|e: Option<String>| host::name_text(e)),
    ensures
        ({
            let f = soundpad::sound_files(all, k);
            &&& forall|i: int, j: int| 0 <= i < j < f.len() ==> #[trigger] f[i] < #[trigger] f[j]
            &&& forall|i: int|
                0 <= i < f.len() ==> #[trigger] f[i] < k && is_sound(lower[f[i] as int])
            &&& forall|i: int|
                0 <= i < k && is_sound(#[trigger] lower[i]) ==> f.contains(i as usize)
        }),
    decreases k,
{
    if k > 0 {
        lemma_sound_files(lower, all, k - 1);
        let f = soundpad::sound_files(all, k);
        let g = soundpad::sound_files(all, k - 1);
        assert(all[k - 1] == host::name_text(lower[k - 1]));
        assert(is_sound(lower[k - 1]) == soundpad::is_sound_file(all[k - 1]));
        assert forall|i: int| 0 <= i < k && is_sound(#[trigger] lower[i]) implies f.contains(
            i as usize,
        ) by {
            if i < k - 1 {
                assert(g.contains(i as usize));
                let j = choose|j: int| 0 <= j < g.len() && g[j] == i as usize;
                assert(f[j] == i as usize);
            } else {
                assert(f[g.len() as int] == i as usize);
            }
        }
    }
}

/// Sounds are read from files of four kinds.
pub proof fn lemma_sound_extensions(lower: &str, r: bool)
    requires
        call_ensures(soundpad::is_sound_extension, (lower,), r),
    ensures
        r <==> lower@ == "mp3"@ || lower@ == "ogg"@ || lower@ == "wav"@ || lower@ == "flac"@,
{
}

/// Reading a file goes on past foreign and damaged packets, up to two minutes of samples.
pub proof fn lemma_reading_on(event: DecodeEvent, r: bool)
    requires
        call_ensures(soundpad::read_on, (event,), r),
    ensures
        event == DecodeEvent::NoPacket || event == DecodeEvent::Failed ==> !r,
        event == DecodeEvent::OtherTrack || event == DecodeEvent::Damaged ==> r,
        event matches DecodeEvent::Decoded { gathered } ==> (r <==> gathered <= 48000 * 120),
{
}

} // verus!
