//! Media kinds and a small table keyed by them.

use vstd::prelude::*;

verus! {

/// The kind of stream a representation carries.
#[derive(PartialEq, Eq, Structural, Hash, Clone, Copy, Debug)]
pub enum MediaType {
    Video,
    Audio,
    Unknown,
}

/// A map from [`MediaType`] to `T`, stored as one slot per kind.
pub struct MediaMap<T> {
    pub video: Option<T>,
    pub audio: Option<T>,
    pub unknown: Option<T>,
}

impl<T> MediaMap<T> {
    /// The slot that belongs to `key`.
    pub open spec fn slot(&self, key: MediaType) -> Option<T> {
        match key {
            MediaType::Video => self.video,
            MediaType::Audio => self.audio,
            MediaType::Unknown => self.unknown,
        }
    }

    /// The table as a mathematical map.
    pub open spec fn entries(&self) -> Map<MediaType, T> {
        Map::new(|k: MediaType| self.slot(k) is Some, |k: MediaType| self.slot(k)->Some_0)
    }

    /// An empty table.
    pub fn new() -> (table: Self)
        ensures
            table.entries() == Map::<MediaType, T>::empty(),
            forall|k: MediaType| table.slot(k) is None,
    {
        let table = MediaMap { video: None, audio: None, unknown: None };
        assert(table.entries() =~= Map::<MediaType, T>::empty());
        table
    }

    /// Whether `key` has a value.
    pub fn contains_key(&self, key: MediaType) -> (present: bool)
        ensures
            present == self.entries().contains_key(key),
            present == (self.slot(key) is Some),
    {
        match key {
            MediaType::Video => self.video.is_some(),
            MediaType::Audio => self.audio.is_some(),
            MediaType::Unknown => self.unknown.is_some(),
        }
    }

    /// The value stored under `key`, if any.
    pub fn get(&self, key: MediaType) -> (value: Option<&T>)
        ensures
            value is Some == self.entries().contains_key(key),
            value matches Some(v) ==> *v == self.entries()[key],
            value matches Some(v) ==> self.slot(key) == Some(*v),
            value is None ==> self.slot(key) is None,
    {
        match key {
            MediaType::Video => self.video.as_ref(),
            MediaType::Audio => self.audio.as_ref(),
            MediaType::Unknown => self.unknown.as_ref(),
        }
    }

    /// Stores `value` under `key` and hands back what was there before.
    pub fn insert(&mut self, key: MediaType, value: T) -> (previous: Option<T>)
        ensures
            final(self).entries() == old(self).entries().insert(key, value),
            final(self).slot(key) == Some(value),
            forall|k: MediaType| k != key ==> final(self).slot(k) == old(self).slot(k),
            previous == old(self).slot(key),
    {
        let previous = match key {
            MediaType::Video => {
                let before = self.video.take();
                self.video = Some(value);
                before
            },
            MediaType::Audio => {
                let before = self.audio.take();
                self.audio = Some(value);
                before
            },
            MediaType::Unknown => {
                let before = self.unknown.take();
                self.unknown = Some(value);
                before
            },
        };
        assert(self.entries() =~= old(self).entries().insert(key, value));
        previous
    }

    /// Empties the slot of `key` and hands back what was there.
    pub fn remove(&mut self, key: MediaType) -> (previous: Option<T>)
        ensures
            final(self).entries() == old(self).entries().remove(key),
            final(self).slot(key) is None,
            forall|k: MediaType| k != key ==> final(self).slot(k) == old(self).slot(k),
            previous == old(self).slot(key),
    {
        let previous = match key {
            MediaType::Video => self.video.take(),
            MediaType::Audio => self.audio.take(),
            MediaType::Unknown => self.unknown.take(),
        };
        assert(self.entries() =~= old(self).entries().remove(key));
        previous
    }
}

} // verus!
