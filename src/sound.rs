use vstd::prelude::*;

verus! {

/// The shortest time between two sounds, in milliseconds.
pub const MIN_SOUND_GAP_MS: u64 = 500;

/// Decides when a pulse of the sound notifier plays a sound: only while sounds
/// are on, and never twice within `MIN_SOUND_GAP_MS`.
pub struct Sounds {
    pub play_sound: bool,
    pub last_sound_ms: Option<u64>,
}

impl Sounds {
    pub fn new(play_sound: bool) -> (s: Sounds)
        ensures
            s.play_sound == play_sound,
            s.last_sound_ms is None,
    {
        Sounds { play_sound, last_sound_ms: None }
    }

    /// Whether a pulse at `now_ms` plays a sound; if it does, `now_ms` becomes
    /// the time of the last sound.
    pub fn pulse(&mut self, now_ms: u64) -> (play: bool)
        ensures
            play == (old(self).play_sound && match old(self).last_sound_ms {
                None => true,
                Some(t) => now_ms >= t + MIN_SOUND_GAP_MS,
            }),
            play ==> final(self).last_sound_ms == Some(now_ms),
            !play ==> final(self).last_sound_ms == old(self).last_sound_ms,
            final(self).play_sound == old(self).play_sound,
    {
        let play = self.play_sound && match self.last_sound_ms {
            None => true,
            Some(t) => now_ms >= t && now_ms - t >= MIN_SOUND_GAP_MS,
        };
        if play {
            self.last_sound_ms = Some(now_ms);
        }
        play
    }
}

} // verus!
