use vstd::prelude::*;

verus! {

/// The keys the viewer reacts to; every other key is kept by its code.
#[derive(Clone, Copy, Debug, PartialEq, Eq, Structural)]
pub enum Key {
    A,
    D,
    W,
    S,
    Q,
    E,
    Up,
    Down,
    Left,
    Right,
    Escape,
    Other(u32),
}

/// `s` holds no key twice.
pub open spec fn no_duplicates(s: Seq<Key>) -> bool {
    forall|i: int, j: int| 0 <= i < s.len() && 0 <= j < s.len() && i != j ==> s[i] != s[j]
}

/// A position of `k` in `s` (the only one when `s` has no duplicates).
pub open spec fn position_of(s: Seq<Key>, k: Key) -> int {
    choose|i: int| 0 <= i < s.len() && s[i] == k
}

/// The held keys after a press of `k`: appended unless already held.
pub open spec fn pressed(s: Seq<Key>, k: Key) -> Seq<Key> {
    if s.contains(k) {
        s
    } else {
        s.push(k)
    }
}

/// The held keys after a release of `k`: its entry removed, if held.
pub open spec fn released(s: Seq<Key>, k: Key) -> Seq<Key> {
    if s.contains(k) {
        s.remove(position_of(s, k))
    } else {
        s
    }
}

/// The keys currently held down, in the order they were pressed.
pub struct PressedKeys {
    keys: Vec<Key>,
}

impl View for PressedKeys {
    type V = Seq<Key>;

    closed spec fn view(&self) -> Seq<Key> {
        self.keys@
    }
}

impl PressedKeys {
    #[verifier::type_invariant]
    spec fn inv(self) -> bool {
        no_duplicates(self.keys@)
    }

    /// No key held.
    pub fn new() -> (keys: Self)
        ensures
            keys@ == Seq::<Key>::empty(),
            no_duplicates(keys@),
    {
        PressedKeys { keys: Vec::new() }
    }

    /// Whether `key` is held.
    pub fn contains(&self, key: Key) -> (held: bool)
        ensures
            held == self@.contains(key),
    {
        let n = self.keys.len();
        let mut i: usize = 0;
        while i < n
            invariant
                n == self.keys@.len(),
                i <= n,
                forall|j: int| 0 <= j < i ==> self.keys@[j] != key,
            decreases n - i,
        {
            if self.keys[i] == key {
                return true;
            }
            i = i + 1;
        }
        false
    }

    /// Records a press of `key`; a key already held stays where it is.
    pub fn press(&mut self, key: Key)
        ensures
            final(self)@ == pressed(old(self)@, key),
            no_duplicates(final(self)@),
            old(self)@.contains(key) ==> final(self)@ == old(self)@,
            !old(self)@.contains(key) ==> final(self)@ == old(self)@.push(key),
    {
        proof {
            use_type_invariant(&*self);
        }
        if !self.contains(key) {
            proof {
                use_type_invariant(&*self);
                assert forall|i: int, j: int|
                    0 <= i < self.keys@.push(key).len() && 0 <= j < self.keys@.push(key).len()
                        && i != j implies self.keys@.push(key)[i] != self.keys@.push(key)[j] by {
                    if i < self.keys@.len() && j < self.keys@.len() {
                    } else if i < self.keys@.len() {
                        assert(self.keys@.contains(self.keys@[i]));
                    } else {
                        assert(self.keys@.contains(self.keys@[j]));
                    }
                }
            }
            let mut keys: Vec<Key> = Vec::new();
            std::mem::swap(&mut keys, &mut self.keys);
            keys.push(key);
            self.keys = keys;
        }
        proof {
            use_type_invariant(&*self);
        }
    }

    /// Records a release of `key`; a key that is not held changes nothing.
    pub fn release(&mut self, key: Key)
        ensures
            final(self)@ == released(old(self)@, key),
            !final(self)@.contains(key),
            no_duplicates(final(self)@),
            !old(self)@.contains(key) ==> final(self)@ == old(self)@,
            forall|i: int|
                0 <= i < old(self)@.len() && old(self)@[i] == key ==> final(self)@ == old(
                    self,
                )@.remove(i),
    {
        proof {
            use_type_invariant(&*self);
        }
        let n = self.keys.len();
        let mut i: usize = 0;
        while i < n
            invariant
                n == self.keys@.len(),
                i <= n,
                forall|j: int| 0 <= j < i ==> self.keys@[j] != key,
                no_duplicates(self.keys@),
                self.keys@ == old(self).keys@,
            decreases n - i,
        {
            if self.keys[i] == key {
                proof {
                    let s = self.keys@;
                    let p = position_of(s, key);
                    assert(s.contains(key));
                    assert(p == i);
                    assert forall|a: int, b: int|
                        0 <= a < s.remove(p).len() && 0 <= b < s.remove(p).len() && a != b implies s.remove(p)[a]
                        != s.remove(p)[b] by {
                        let a2 = if a < p { a } else { a + 1 };
                        let b2 = if b < p { b } else { b + 1 };
                        assert(s.remove(p)[a] == s[a2]);
                        assert(s.remove(p)[b] == s[b2]);
                    }
                    assert forall|a: int| 0 <= a < s.remove(p).len() implies s.remove(p)[a] != key by {
                        let a2 = if a < p { a } else { a + 1 };
                        assert(s.remove(p)[a] == s[a2]);
                    }
                }
                let mut keys: Vec<Key> = Vec::new();
                std::mem::swap(&mut keys, &mut self.keys);
                keys.remove(i);
                self.keys = keys;
                proof {
                    use_type_invariant(&*self);
                }
                return;
            }
            i = i + 1;
        }
    }

    /// The held keys, oldest press first.
    pub fn as_slice(&self) -> (keys: &[Key])
        ensures
            keys@ == self@,
    {
        self.keys.as_slice()
    }

    /// How many keys are held.
    pub fn len(&self) -> (n: usize)
        ensures
            n == self@.len(),
    {
        self.keys.len()
    }
}

} // verus!

verus! {

proof fn lemma_position_unique(s: Seq<Key>, k: Key, i: int)
    requires
        no_duplicates(s),
        0 <= i < s.len(),
        s[i] == k,
    ensures
        position_of(s, k) == i,
{
    assert(s.contains(k));
}

/// Pressing a key that is not held and releasing it again leaves the held
/// keys as they were.
pub proof fn law_press_release_roundtrip(s: Seq<Key>, k: Key)
    requires
        !s.contains(k),
    ensures
        released(pressed(s, k), k) == s,
{
    let t = s.push(k);
    assert(t[s.len() as int] == k);
    assert(t.contains(k));
    let p = position_of(t, k);
    assert(0 <= p < t.len() && t[p] == k);
    if p < s.len() {
        assert(s.contains(s[p]));
    }
    assert(p == s.len());
    assert(t.remove(p) =~= s);
}

/// A second press of the same key, or a second release, changes nothing.
pub proof fn law_press_release_idempotent(s: Seq<Key>, k: Key)
    requires
        no_duplicates(s),
    ensures
        pressed(pressed(s, k), k) == pressed(s, k),
        released(released(s, k), k) == released(s, k),
        pressed(s, k).contains(k),
        !released(s, k).contains(k),
{
    if !s.contains(k) {
        assert(s.push(k)[s.len() as int] == k);
    }
    if s.contains(k) {
        let p = position_of(s, k);
        let r = s.remove(p);
        assert forall|a: int| 0 <= a < r.len() implies r[a] != k by {
            let a2 = if a < p { a } else { a + 1 };
            assert(r[a] == s[a2]);
        }
    }
}

/// Pressing or releasing a key keeps every key at most once.
pub proof fn law_no_duplicates_kept(s: Seq<Key>, k: Key)
    requires
        no_duplicates(s),
    ensures
        no_duplicates(pressed(s, k)),
        no_duplicates(released(s, k)),
{
    if !s.contains(k) {
        let t = s.push(k);
        assert forall|i: int, j: int| 0 <= i < t.len() && 0 <= j < t.len() && i != j implies t[i]
            != t[j] by {
            if i < s.len() && j < s.len() {
            } else if i < s.len() {
                assert(s.contains(s[i]));
            } else {
                assert(s.contains(s[j]));
            }
        }
    } else {
        let p = position_of(s, k);
        let r = s.remove(p);
        assert forall|a: int, b: int| 0 <= a < r.len() && 0 <= b < r.len() && a != b implies r[a]
            != r[b] by {
            let a2 = if a < p { a } else { a + 1 };
            let b2 = if b < p { b } else { b + 1 };
            assert(r[a] == s[a2]);
            assert(r[b] == s[b2]);
        }
    }
}

/// Pressing or releasing one key does not change whether any other key is
/// held.
pub proof fn law_other_keys_unaffected(s: Seq<Key>, k: Key, other: Key)
    requires
        no_duplicates(s),
        other != k,
    ensures
        pressed(s, k).contains(other) == s.contains(other),
        released(s, k).contains(other) == s.contains(other),
{
    if s.contains(other) {
        let j = choose|j: int| 0 <= j < s.len() && s[j] == other;
        if !s.contains(k) {
            assert(s.push(k)[j] == other);
        } else {
            let p = position_of(s, k);
            let r = s.remove(p);
            if j < p {
                assert(r[j] == other);
            } else {
                assert(j != p);
                assert(r[j - 1] == other);
            }
        }
    }
    if pressed(s, k).contains(other) {
        let j = choose|j: int| 0 <= j < pressed(s, k).len() && pressed(s, k)[j] == other;
        if !s.contains(k) {
            assert(j < s.len());
            assert(s[j] == other);
        }
    }
    if released(s, k).contains(other) {
        let r = released(s, k);
        let j = choose|j: int| 0 <= j < r.len() && r[j] == other;
        if s.contains(k) {
            let p = position_of(s, k);
            let j2 = if j < p { j } else { j + 1 };
            assert(s[j2] == other);
        }
    }
}

} // verus!

verus! {

/// Releasing a held key takes out exactly its entry: the keys before it and
/// after it stay, in their press order.
pub proof fn law_release_keeps_press_order(s: Seq<Key>, k: Key, i: int)
    requires
        no_duplicates(s),
        0 <= i < s.len(),
        s[i] == k,
    ensures
        released(s, k) == s.remove(i),
        released(s, k).len() == s.len() - 1,
        forall|a: int| 0 <= a < i ==> released(s, k)[a] == s[a],
        forall|a: int| i < a < s.len() ==> released(s, k)[a - 1] == s[a],
{
    lemma_position_unique(s, k, i);
}

/// Pressing a key that is not held appends it after every held key; pressing
/// a held key changes nothing.
pub proof fn law_press_appends(s: Seq<Key>, k: Key)
    ensures
        !s.contains(k) ==> pressed(s, k) == s.push(k),
        s.contains(k) ==> pressed(s, k) == s,
{
}

} // verus!
