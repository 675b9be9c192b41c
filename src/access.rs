//! The key-then-value protocol through which a parsed table is read as a map: each
//! step hands out the next key and keeps its value until it is asked for.
use vstd::prelude::*;

verus! {

/// Hands out the entries of a parsed table, key first, then that key's value.
pub struct QSDeserializer<T> {
    pub entries: Vec<(Vec<u8>, T)>,
    pub value: Option<T>,
}

impl<T> QSDeserializer<T> {
    /// Starts before the first of `entries`.
    pub fn new(entries: Vec<(Vec<u8>, T)>) -> (r: Self)
        ensures
            r.entries@ == entries@,
            r.value is None,
    {
        QSDeserializer { entries, value: None }
    }

    /// The next key, keeping its value for `next_value`; `None` when all are handed out.
    pub fn next_key(&mut self) -> (r: Option<Vec<u8>>)
        ensures
            old(self).entries@.len() == 0 ==> r is None && final(self).entries@ == old(self).entries@
                && final(self).value == old(self).value,
            old(self).entries@.len() > 0 ==> r == Some(old(self).entries@[0].0) && final(self).entries@
                == old(self).entries@.drop_first() && final(self).value == Some(old(self).entries@[0].1),
    {
        if self.entries.len() == 0 {
            return None;
        }
        let (k, v) = self.entries.remove(0);
        proof {
            assert(self.entries@ =~= old(self).entries@.drop_first());
        }
        self.value = Some(v);
        Some(k)
    }

    /// The value of the key handed out last; `None` if no key is waiting for its value.
    pub fn next_value(&mut self) -> (r: Option<T>)
        ensures
            r == old(self).value,
            final(self).value is None,
            final(self).entries@ == old(self).entries@,
    {
        self.value.take()
    }

    /// How many entries are left.
    pub fn size_hint(&self) -> (r: usize)
        ensures
            r == self.entries@.len(),
    {
        self.entries.len()
    }
}

} // verus!
