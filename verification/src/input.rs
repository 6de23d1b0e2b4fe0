//! Keys, and the keymaps that bind sequences of them.
use vstd::prelude::*;
use crate::lisp::Sexp;

verus! {

#[derive(Clone, Copy, Debug, PartialEq, Eq, Hash, Structural)]
pub enum KeyCode {
    NoKey,
    Char(char),
    Backspace,
    Enter,
    Esc,
    Tab,
    Left,
    Right,
    Up,
    Down,
}

#[derive(Clone, Copy, Debug, PartialEq, Eq, Hash, Structural)]
pub struct KeyModifiers {
    pub ctrl: bool,
    pub alt: bool,
    pub shift: bool,
    pub caps_lock_as_ctrl: bool,
}

impl KeyModifiers {
    /// No modifier held.
    pub open spec fn none() -> KeyModifiers {
        KeyModifiers { ctrl: false, alt: false, shift: false, caps_lock_as_ctrl: false }
    }
}

impl Default for KeyModifiers {
    fn default() -> (r: Self)
        ensures
            r == KeyModifiers::none(),
    {
        KeyModifiers { ctrl: false, alt: false, shift: false, caps_lock_as_ctrl: false }
    }
}

#[derive(Clone, Copy, Debug, PartialEq, Eq, Hash, Structural)]
pub struct KeyEvent {
    pub code: KeyCode,
    pub modifiers: KeyModifiers,
}

impl KeyEvent {
    pub fn new(code: KeyCode) -> (r: Self)
        ensures
            r.code == code,
            r.modifiers == KeyModifiers::none(),
    {
        Self { code, modifiers: KeyModifiers::default() }
    }
}

/// How a key's code is written in a binding.
pub open spec fn code_name(code: KeyCode) -> Seq<char> {
    match code {
        KeyCode::Char(c) => if c == ' ' {
            "<space>"@
        } else {
            seq![c]
        },
        KeyCode::Backspace => "<backspace>"@,
        KeyCode::Enter => "<ret>"@,
        KeyCode::Esc => "<esc>"@,
        KeyCode::Tab => "<tab>"@,
        KeyCode::Left => "<left>"@,
        KeyCode::Right => "<right>"@,
        KeyCode::Up => "<up>"@,
        KeyCode::Down => "<down>"@,
        KeyCode::NoKey => "<none>"@,
    }
}

/// How one key is written in a binding: `C-` for control, `M-` for alt, then
/// its code.
pub open spec fn key_text(key: KeyEvent) -> Seq<char> {
    (if key.modifiers.ctrl {
        "C-"@
    } else {
        Seq::empty()
    }) + (if key.modifiers.alt {
        "M-"@
    } else {
        Seq::empty()
    }) + code_name(key.code)
}

/// How a key sequence is written: its keys, separated by spaces.
pub open spec fn keys_text(keys: Seq<KeyEvent>) -> Seq<char>
    decreases keys.len(),
{
    if keys.len() == 0 {
        Seq::empty()
    } else if keys.len() == 1 {
        key_text(keys[0])
    } else {
        keys_text(keys.drop_last()) + " "@ + key_text(keys.last())
    }
}

/// How a key sequence is written in a binding and shown to the user.
///
/// The inverse of the parser that reads bindings, so that what the echo area
/// shows while a sequence is half-typed is spelt the same way the binding
/// that will complete it was written.
pub fn describe_keys(keys: &[KeyEvent]) -> (r: String)
    ensures
        r@ == keys_text(keys@),
{
    let mut out = String::new();
    let mut i: usize = 0;
    while i < keys.len()
        invariant
            i <= keys@.len(),
            out@ == keys_text(keys@.take(i as int)),
        decreases keys@.len() - i,
    {
        let text = describe_key(&keys[i]);
        if i > 0 {
            out.push_str(" ");
        }
        out.push_str(text.as_str());
        proof {
            assert(keys@.take(i + 1).drop_last() =~= keys@.take(i as int));
            if i == 0 {
                assert(keys@.take(0) =~= Seq::<KeyEvent>::empty());
                assert(out@ =~= key_text(keys@[0]));
            }
        }
        i = i + 1;
    }
    proof {
        assert(keys@.take(keys@.len() as int) =~= keys@);
    }
    out
}

fn describe_key(key: &KeyEvent) -> (r: String)
    ensures
        r@ == key_text(*key),
{
    let mut out = String::new();
    if key.modifiers.ctrl {
        out.push_str("C-");
    }
    if key.modifiers.alt {
        out.push_str("M-");
    }
    let ghost before = out@;
    match key.code {
        KeyCode::Char(c) => {
            if c == ' ' {
                out.push_str("<space>");
            } else {
                out.push(c);
            }
        },
        KeyCode::Backspace => out.push_str("<backspace>"),
        KeyCode::Enter => out.push_str("<ret>"),
        KeyCode::Esc => out.push_str("<esc>"),
        KeyCode::Tab => out.push_str("<tab>"),
        KeyCode::Left => out.push_str("<left>"),
        KeyCode::Right => out.push_str("<right>"),
        KeyCode::Up => out.push_str("<up>"),
        KeyCode::Down => out.push_str("<down>"),
        KeyCode::NoKey => out.push_str("<none>"),
    }
    assert(out@ =~= key_text(*key));
    out
}

/// Whether two key sequences are the same.
fn same_keys(a: &[KeyEvent], b: &[KeyEvent]) -> (r: bool)
    ensures
        r == (a@ == b@),
{
    if a.len() != b.len() {
        return false;
    }
    let mut i: usize = 0;
    while i < a.len()
        invariant
            a@.len() == b@.len(),
            i <= a@.len(),
            forall|j: int| 0 <= j < i ==> a@[j] == b@[j],
        decreases a@.len() - i,
    {
        if a[i] != b[i] {
            return false;
        }
        i = i + 1;
    }
    assert(a@ =~= b@);
    true
}

/// The first `len` keys of a sequence, as a sequence of their own.
fn prefix_of(keys: &[KeyEvent], len: usize) -> (r: Vec<KeyEvent>)
    requires
        len <= keys@.len(),
    ensures
        r@ == keys@.take(len as int),
{
    let mut out: Vec<KeyEvent> = Vec::new();
    let mut i: usize = 0;
    while i < len
        invariant
            len <= keys@.len(),
            i <= len,
            out@ == keys@.take(i as int),
        decreases len - i,
    {
        out.push(keys[i]);
        assert(out@ =~= keys@.take(i + 1));
        i = i + 1;
    }
    out
}


/// Whether no key sequence appears twice among `s`.
pub open spec fn keys_unique<E>(s: Seq<(Vec<KeyEvent>, E)>) -> bool {
    forall|i: int, j: int| 0 <= i < j < s.len() ==> #[trigger] s[i].0@ != #[trigger] s[j].0@
}

/// The bindings a list of entries makes.
pub open spec fn entries_map<E>(s: Seq<(Vec<KeyEvent>, E)>) -> Map<Seq<KeyEvent>, E> {
    Map::new(
        |k: Seq<KeyEvent>| exists|i: int| 0 <= i < s.len() && #[trigger] s[i].0@ == k,
        |k: Seq<KeyEvent>| s[choose|i: int| 0 <= i < s.len() && #[trigger] s[i].0@ == k].1,
    )
}

proof fn lemma_entries_map_update<E>(s: Seq<(Vec<KeyEvent>, E)>, i: int, e: (Vec<KeyEvent>, E))
    requires
        keys_unique(s),
        0 <= i < s.len(),
        s[i].0@ == e.0@,
    ensures
        entries_map(s.update(i, e)) =~= entries_map(s).insert(e.0@, e.1),
{
    let t = s.update(i, e);
    assert forall|k: Seq<KeyEvent>| #[trigger] entries_map(t).contains_key(k) implies entries_map(s).insert(e.0@, e.1).contains_key(k) by {
        let j = choose|j: int| 0 <= j < t.len() && #[trigger] t[j].0@ == k;
        assert(s[j].0@ == k);
    }
    assert forall|k: Seq<KeyEvent>| #[trigger] entries_map(s).insert(e.0@, e.1).contains_key(k) implies entries_map(t).contains_key(k) by {
        if k == e.0@ {
            assert(t[i].0@ == k);
        } else {
            let j = choose|j: int| 0 <= j < s.len() && #[trigger] s[j].0@ == k;
            assert(t[j].0@ == k);
        }
    }
    assert forall|k: Seq<KeyEvent>| #[trigger] entries_map(t).contains_key(k) implies entries_map(t)[k] == entries_map(s).insert(e.0@, e.1)[k] by {
        let j = choose|j: int| 0 <= j < t.len() && #[trigger] t[j].0@ == k;
        if k == e.0@ {
            assert(t[i].0@ == k);
            if j != i {
                assert(s[j].0@ == s[i].0@);
            }
        } else {
            let j2 = choose|j2: int| 0 <= j2 < s.len() && #[trigger] s[j2].0@ == k;
            assert(t[j2].0@ == k);
            if j != j2 {
                assert(s[j].0@ == s[j2].0@);
            }
        }
    }
}

proof fn lemma_entries_map_push<E>(s: Seq<(Vec<KeyEvent>, E)>, e: (Vec<KeyEvent>, E))
    requires
        keys_unique(s.push(e)),
    ensures
        entries_map(s.push(e)) =~= entries_map(s).insert(e.0@, e.1),
{
    let t = s.push(e);
    assert forall|k: Seq<KeyEvent>| #[trigger] entries_map(t).contains_key(k) implies entries_map(s).insert(e.0@, e.1).contains_key(k) by {
        let j = choose|j: int| 0 <= j < t.len() && #[trigger] t[j].0@ == k;
        if j < s.len() {
            assert(s[j].0@ == k);
        }
    }
    assert forall|k: Seq<KeyEvent>| #[trigger] entries_map(s).insert(e.0@, e.1).contains_key(k) implies entries_map(t).contains_key(k) by {
        if k == e.0@ {
            assert(t[s.len() as int].0@ == k);
        } else {
            let j = choose|j: int| 0 <= j < s.len() && #[trigger] s[j].0@ == k;
            assert(t[j].0@ == k);
        }
    }
    assert forall|k: Seq<KeyEvent>| #[trigger] entries_map(t).contains_key(k) implies entries_map(t)[k] == entries_map(s).insert(e.0@, e.1)[k] by {
        let j = choose|j: int| 0 <= j < t.len() && #[trigger] t[j].0@ == k;
        let last = s.len() as int;
        if k == e.0@ {
            assert(t[last].0@ == k);
            if j != last {
                assert(t[j].0@ == t[last].0@);
            }
        } else {
            let j2 = choose|j2: int| 0 <= j2 < s.len() && #[trigger] s[j2].0@ == k;
            assert(t[j2].0@ == k);
            if j != j2 {
                assert(t[j].0@ == t[j2].0@);
            }
        }
    }
}


proof fn lemma_entries_map_at<E>(s: Seq<(Vec<KeyEvent>, E)>, i: int)
    requires
        keys_unique(s),
        0 <= i < s.len(),
    ensures
        entries_map(s).contains_key(s[i].0@),
        entries_map(s)[s[i].0@] == s[i].1,
{
    let k = s[i].0@;
    assert(s[i].0@ == k);
    let j = choose|j: int| 0 <= j < s.len() && #[trigger] s[j].0@ == k;
    if j != i {
        assert(s[j].0@ == s[i].0@);
    }
}

proof fn lemma_entries_map_len<E>(s: Seq<(Vec<KeyEvent>, E)>)
    requires
        keys_unique(s),
    ensures
        entries_map(s).dom().finite(),
        entries_map(s).dom().len() == s.len(),
    decreases s.len(),
{
    if s.len() == 0 {
        assert(entries_map(s).dom() =~= Set::<Seq<KeyEvent>>::empty());
    } else {
        let t = s.drop_last();
        lemma_entries_map_len(t);
        assert(s =~= t.push(s.last()));
        lemma_entries_map_push(t, s.last());
        if entries_map(t).contains_key(s.last().0@) {
            let j = choose|j: int| 0 <= j < t.len() && #[trigger] t[j].0@ == s.last().0@;
            assert(s[j].0@ == s[s.len() - 1].0@);
        }
    }
}

/// Every sequence that is a proper, non-empty beginning of one of `bound`.
pub open spec fn proper_prefixes(bound: Set<Seq<KeyEvent>>) -> Set<Seq<KeyEvent>> {
    Set::new(
        |p: Seq<KeyEvent>|
            exists|k: Seq<KeyEvent>|
                #[trigger] bound.contains(k) && 0 < p.len() < k.len() && p == k.take(p.len() as int),
    )
}

/// A binding is always reachable: every beginning of a bound sequence counts
/// as a prefix, so typing it waits for the rest rather than reporting it
/// undefined and throwing the sequence away.
pub proof fn lemma_bound_sequences_are_reachable(bound: Set<Seq<KeyEvent>>, keys: Seq<KeyEvent>, i: int)
    requires
        bound.contains(keys),
        0 < i < keys.len(),
    ensures
        proper_prefixes(bound).contains(keys.take(i)),
{
    assert(keys.take(i) == keys.take(keys.take(i).len() as int));
}

/// Key sequences bound to expressions, and the prefixes that lead to them.
///
/// Every keystroke asks two questions of a keymap: "is this sequence a
/// binding?" and "is it the start of one?". The prefixes are kept beside the
/// bindings rather than searched for, and putting both behind one `insert`
/// makes a binding whose prefixes were never registered unrepresentable: the
/// prefixes are always exactly the proper prefixes of what is bound.
#[derive(Debug)]
pub struct Keymap<E> {
    bindings: Vec<(Vec<KeyEvent>, E)>,
    prefixes: Vec<Vec<KeyEvent>>,
}

impl<E> Keymap<E> {
    /// What each sequence is bound to.
    pub closed spec fn bindings(&self) -> Map<Seq<KeyEvent>, E> {
        entries_map(self.bindings@)
    }

    /// The sequences that are the beginning of some longer binding.
    pub closed spec fn prefixes(&self) -> Set<Seq<KeyEvent>> {
        Set::new(
            |p: Seq<KeyEvent>|
                exists|i: int| 0 <= i < self.prefixes@.len() && #[trigger] self.prefixes@[i]@ == p,
        )
    }

    pub closed spec fn inv(&self) -> bool {
        &&& keys_unique(self.bindings@)
        &&& forall|i: int, j: int|
            0 <= i < j < self.prefixes@.len() ==> #[trigger] self.prefixes@[i]@
                != #[trigger] self.prefixes@[j]@
        &&& self.prefixes() == proper_prefixes(self.bindings().dom())
    }

    pub fn new() -> (r: Self)
        ensures
            r.inv(),
            r.bindings() == Map::<Seq<KeyEvent>, E>::empty(),
            r.prefixes() == Set::<Seq<KeyEvent>>::empty(),
    {
        let r = Keymap { bindings: Vec::new(), prefixes: Vec::new() };
        assert(r.bindings() =~= Map::<Seq<KeyEvent>, E>::empty());
        assert(r.prefixes() =~= Set::<Seq<KeyEvent>>::empty());
        assert(proper_prefixes(r.bindings().dom()) =~= Set::<Seq<KeyEvent>>::empty());
        r
    }

    fn find_binding(&self, keys: &[KeyEvent]) -> (r: Option<usize>)
        requires
            keys_unique(self.bindings@),
        ensures
            r matches Some(i) ==> i < self.bindings@.len() && self.bindings@[i as int].0@ == keys@,
            r is None ==> !self.bindings().dom().contains(keys@),
    {
        let mut i: usize = 0;
        while i < self.bindings.len()
            invariant
                i <= self.bindings@.len(),
                forall|j: int| 0 <= j < i ==> #[trigger] self.bindings@[j].0@ != keys@,
            decreases self.bindings@.len() - i,
        {
            if same_keys(self.bindings[i].0.as_slice(), keys) {
                return Some(i);
            }
            i = i + 1;
        }
        None
    }

    fn has_prefix(&self, keys: &[KeyEvent]) -> (r: bool)
        ensures
            r == self.prefixes().contains(keys@),
    {
        let mut i: usize = 0;
        while i < self.prefixes.len()
            invariant
                i <= self.prefixes@.len(),
                forall|j: int| 0 <= j < i ==> #[trigger] self.prefixes@[j]@ != keys@,
            decreases self.prefixes@.len() - i,
        {
            if same_keys(self.prefixes[i].as_slice(), keys) {
                return true;
            }
            i = i + 1;
        }
        false
    }

    /// Bind KEYS to AST, and register every proper prefix of KEYS.
    ///
    /// *Proper*: the sequence itself is not registered. A lookup checks `get`
    /// before `is_prefix`, so a complete binding is found as a binding either
    /// way.
    pub fn insert(&mut self, keys: Vec<KeyEvent>, ast: E)
        requires
            old(self).inv(),
        ensures
            final(self).inv(),
            final(self).bindings() == old(self).bindings().insert(keys@, ast),
    {
        let ghost old_bound = self.bindings();
        let ghost ks = keys@;
        let mut len: usize = 1;
        while len < keys.len()
            invariant
                self.bindings == old(self).bindings,
                forall|i: int, j: int|
                    0 <= i < j < self.prefixes@.len() ==> #[trigger] self.prefixes@[i]@
                        != #[trigger] self.prefixes@[j]@,
                1 <= len,
                ks == keys@,
                self.prefixes() == proper_prefixes(old_bound.dom()).union(
                    Set::new(|p: Seq<KeyEvent>| 0 < p.len() < len && p.len() < ks.len() && p == ks.take(p.len() as int)),
                ),
            decreases keys@.len() - len,
        {
            let p = prefix_of(keys.as_slice(), len);
            let ghost before = self.prefixes();
            if !self.has_prefix(p.as_slice()) {
                let ghost old_list = self.prefixes@;
                self.prefixes.push(p);
                proof {
                    assert forall|i: int, j: int|
                        0 <= i < j < self.prefixes@.len() implies #[trigger] self.prefixes@[i]@
                            != #[trigger] self.prefixes@[j]@ by {
                        if j == old_list.len() {
                            assert(old_list[i]@ != ks.take(len as int)) by {
                                if old_list[i]@ == ks.take(len as int) {
                                    assert(before.contains(old_list[i]@));
                                }
                            }
                        }
                    }
                    assert forall|x: Seq<KeyEvent>| #[trigger] self.prefixes().contains(x) implies before.insert(ks.take(len as int)).contains(x) by {
                        let i = choose|i: int| 0 <= i < self.prefixes@.len() && #[trigger] self.prefixes@[i]@ == x;
                        if i < old_list.len() {
                            assert(old_list[i]@ == x);
                        }
                    }
                    assert forall|x: Seq<KeyEvent>| #[trigger] before.insert(ks.take(len as int)).contains(x) implies self.prefixes().contains(x) by {
                        if x == ks.take(len as int) {
                            assert(self.prefixes@[old_list.len() as int]@ == x);
                        } else {
                            let i = choose|i: int| 0 <= i < old_list.len() && #[trigger] old_list[i]@ == x;
                            assert(self.prefixes@[i]@ == x);
                        }
                    }
                    assert(self.prefixes() =~= before.insert(ks.take(len as int)));
                }
            } else {
                assert(before.contains(ks.take(len as int)));
            }
            proof {
                assert(self.prefixes() =~= proper_prefixes(old_bound.dom()).union(
                    Set::new(|p: Seq<KeyEvent>| 0 < p.len() < len + 1 && p.len() < ks.len() && p == ks.take(p.len() as int)),
                ));
            }
            len = len + 1;
        }
        proof {
            let extra = Set::new(|p: Seq<KeyEvent>| 0 < p.len() < len && p.len() < ks.len() && p == ks.take(p.len() as int));
            let new_dom = old_bound.dom().insert(ks);
            assert(proper_prefixes(new_dom) =~= proper_prefixes(old_bound.dom()).union(extra)) by {
                assert forall|p: Seq<KeyEvent>| #[trigger] proper_prefixes(new_dom).contains(p) implies proper_prefixes(old_bound.dom()).union(extra).contains(p) by {
                    let k = choose|k: Seq<KeyEvent>| #[trigger] new_dom.contains(k) && 0 < p.len() < k.len() && p == k.take(p.len() as int);
                    if k != ks {
                        assert(old_bound.dom().contains(k));
                    }
                }
                assert forall|p: Seq<KeyEvent>| #[trigger] proper_prefixes(old_bound.dom()).union(extra).contains(p) implies proper_prefixes(new_dom).contains(p) by {
                    if extra.contains(p) {
                        assert(new_dom.contains(ks));
                    } else {
                        let k = choose|k: Seq<KeyEvent>| #[trigger] old_bound.dom().contains(k) && 0 < p.len() < k.len() && p == k.take(p.len() as int);
                        assert(new_dom.contains(k));
                    }
                }
            }
        }
        let found = self.find_binding(keys.as_slice());
        let ghost old_entries = self.bindings@;
        match found {
            Some(i) => {
                self.bindings.set(i, (keys, ast));
                proof {
                    assert forall|a: int, b: int|
                        0 <= a < b < self.bindings@.len() implies #[trigger] self.bindings@[a].0@
                            != #[trigger] self.bindings@[b].0@ by {
                        if a == i {
                            assert(old_entries[a].0@ == ks);
                        }
                        if b == i {
                            assert(old_entries[b].0@ == ks);
                        }
                    }
                    lemma_entries_map_update(old_entries, i as int, self.bindings@[i as int]);
                    assert(self.bindings@ =~= old_entries.update(i as int, self.bindings@[i as int]));
                }
            },
            None => {
                self.bindings.push((keys, ast));
                proof {
                    assert forall|a: int, b: int|
                        0 <= a < b < self.bindings@.len() implies #[trigger] self.bindings@[a].0@
                            != #[trigger] self.bindings@[b].0@ by {
                        if b == old_entries.len() {
                            if old_entries[a].0@ == ks {
                                assert(old_bound.dom().contains(ks));
                            }
                        }
                    }
                    lemma_entries_map_push(old_entries, self.bindings@.last());
                    assert(self.bindings@ =~= old_entries.push(self.bindings@.last()));
                }
            },
        }
        assert(self.bindings().dom() =~= old_bound.dom().insert(ks));
    }


    /// Bind a single key. Most bindings are one key long.
    pub fn insert_key(&mut self, key: KeyEvent, ast: E)
        requires
            old(self).inv(),
        ensures
            final(self).inv(),
            final(self).bindings() == old(self).bindings().insert(seq![key], ast),
    {
        let mut keys: Vec<KeyEvent> = Vec::new();
        keys.push(key);
        assert(keys@ =~= seq![key]);
        self.insert(keys, ast);
    }

    /// What KEYS is bound to, if it is a complete binding.
    pub fn get(&self, keys: &[KeyEvent]) -> (r: Option<&E>)
        requires
            self.inv(),
        ensures
            r matches Some(e) ==> self.bindings().contains_key(keys@) && *e == self.bindings()[keys@],
            r is None ==> !self.bindings().contains_key(keys@),
    {
        match self.find_binding(keys) {
            Some(i) => {
                proof {
                    lemma_entries_map_at(self.bindings@, i as int);
                }
                Some(&self.bindings[i].1)
            },
            None => None,
        }
    }

    /// Whether KEYS is the beginning of some longer binding, and so worth
    /// waiting on rather than reporting as undefined.
    pub fn is_prefix(&self, keys: &[KeyEvent]) -> (r: bool)
        requires
            self.inv(),
        ensures
            r == proper_prefixes(self.bindings().dom()).contains(keys@),
    {
        self.has_prefix(keys)
    }

    /// A keymap binds finitely many sequences, so a binding for a sequence
    /// not yet bound adds one to its length.
    pub proof fn lemma_finite(&self)
        requires
            self.inv(),
        ensures
            self.bindings().dom().finite(),
    {
        lemma_entries_map_len(self.bindings@);
    }

    pub fn len(&self) -> (r: usize)
        requires
            self.inv(),
        ensures
            self.bindings().dom().finite(),
            r == self.bindings().dom().len(),
    {
        proof {
            lemma_entries_map_len(self.bindings@);
        }
        self.bindings.len()
    }

    pub fn is_empty(&self) -> (r: bool)
        requires
            self.inv(),
        ensures
            r == (self.bindings().dom().len() == 0),
    {
        proof {
            lemma_entries_map_len(self.bindings@);
        }
        self.bindings.len() == 0
    }
}

impl<E> Default for Keymap<E> {
    fn default() -> (r: Self)
        ensures
            r.inv(),
            r.bindings() == Map::<Seq<KeyEvent>, E>::empty(),
    {
        Keymap::new()
    }
}

/// A key pressed with control held.
pub open spec fn ctrl_key(c: char) -> KeyEvent {
    KeyEvent { code: KeyCode::Char(c), modifiers: KeyModifiers { ctrl: true, ..KeyModifiers::none() } }
}

/// A key pressed with alt held.
pub open spec fn alt_key(c: char) -> KeyEvent {
    KeyEvent { code: KeyCode::Char(c), modifiers: KeyModifiers { alt: true, ..KeyModifiers::none() } }
}

/// A key pressed on its own.
pub open spec fn plain_key(code: KeyCode) -> KeyEvent {
    KeyEvent { code, modifiers: KeyModifiers::none() }
}

/// Whether `e` is the call `(name)`.
pub open spec fn is_call(e: Sexp, name: Seq<char>) -> bool {
    e matches Sexp::List(items) && items@.len() == 1 && (items@[0] matches Sexp::Symbol(s) && s@ == name)
}

/// Whether `e` is the bare symbol `name`.
pub open spec fn is_symbol(e: Sexp, name: Seq<char>) -> bool {
    e matches Sexp::Symbol(s) && s@ == name
}

/// Whether `e` is `(self-insert "c")`.
pub open spec fn is_self_insert(e: Sexp, c: char) -> bool {
    e matches Sexp::List(items) && items@.len() == 2 && (items@[0] matches Sexp::Symbol(s) && s@
        == "self-insert"@) && (items@[1] matches Sexp::String(t) && t@ == seq![c])
}

/// Whether `k` types a printable ASCII character.
pub open spec fn is_printable_key(k: KeyEvent) -> bool {
    k.modifiers == KeyModifiers::none() && (k.code matches KeyCode::Char(c) && ' ' <= c <= '~')
}

/// What the editor binds before any configuration is read.
pub open spec fn default_binding(k: KeyEvent) -> Option<spec_fn(Sexp) -> bool> {
    if k == ctrl_key('q') {
        Some(|e: Sexp| is_call(e, "quit"@))
    } else if k == alt_key('x') {
        Some(|e: Sexp| is_symbol(e, "command-execute-prompt"@))
    } else if k == ctrl_key('s') {
        Some(|e: Sexp| is_call(e, "save-buffer"@))
    } else if k == plain_key(KeyCode::Left) {
        Some(|e: Sexp| is_call(e, "backward-char"@))
    } else if k == plain_key(KeyCode::Right) {
        Some(|e: Sexp| is_call(e, "forward-char"@))
    } else if k == plain_key(KeyCode::Up) {
        Some(|e: Sexp| is_call(e, "previous-line"@))
    } else if k == plain_key(KeyCode::Down) {
        Some(|e: Sexp| is_call(e, "next-line"@))
    } else if k == plain_key(KeyCode::Enter) {
        Some(|e: Sexp| is_call(e, "insert-newline"@))
    } else if is_printable_key(k) {
        Some(|e: Sexp| k.code matches KeyCode::Char(c) && is_self_insert(e, c))
    } else {
        None
    }
}

/// The arrows move the way they point, and the editor's own keys do what
/// they are named for: Up runs `(previous-line)`, Down `(next-line)`, Left
/// `(backward-char)`, Right `(forward-char)`, Enter `(insert-newline)`,
/// `C-q` `(quit)`, `C-s` `(save-buffer)` and `M-x` the command prompt; and a
/// printable character inserts itself.
pub proof fn lemma_default_bindings_named(e: Sexp, c: char)
    ensures
        default_binding(plain_key(KeyCode::Up)) matches Some(p) && (p(e) <==> is_call(e, "previous-line"@)),
        default_binding(plain_key(KeyCode::Down)) matches Some(p) && (p(e) <==> is_call(e, "next-line"@)),
        default_binding(plain_key(KeyCode::Left)) matches Some(p) && (p(e) <==> is_call(e, "backward-char"@)),
        default_binding(plain_key(KeyCode::Right)) matches Some(p) && (p(e) <==> is_call(e, "forward-char"@)),
        default_binding(plain_key(KeyCode::Enter)) matches Some(p) && (p(e) <==> is_call(e, "insert-newline"@)),
        default_binding(ctrl_key('q')) matches Some(p) && (p(e) <==> is_call(e, "quit"@)),
        default_binding(ctrl_key('s')) matches Some(p) && (p(e) <==> is_call(e, "save-buffer"@)),
        default_binding(alt_key('x')) matches Some(p) && (p(e) <==> is_symbol(e, "command-execute-prompt"@)),
        ' ' <= c <= '~' ==> (default_binding(plain_key(KeyCode::Char(c))) matches Some(p) && (p(e)
            <==> is_self_insert(e, c))),
{
}

/// Two one-key sequences are equal only when their keys are.
proof fn lemma_single_keys_differ()
    ensures
        forall|a: KeyEvent, b: KeyEvent| #![trigger seq![a], seq![b]] a != b ==> seq![a] != seq![b],
{
    assert forall|a: KeyEvent, b: KeyEvent| a != b implies seq![a] != seq![b] by {
        assert(seq![a][0] == a);
        assert(seq![b][0] == b);
    }
}

/// The call `(name)`.
fn call_of(name: &str) -> (r: Sexp)
    ensures
        is_call(r, name@),
{
    let mut items: Vec<Sexp> = Vec::new();
    items.push(Sexp::symbol(name));
    Sexp::form(items)
}

/// Fills a keymap with the editor's own bindings: quitting, saving, moving,
/// and every printable ASCII character inserting itself, so the editor can be
/// typed into before any configuration is read.
pub fn fill_default_keymaps(keymaps: &mut Keymap<Sexp>)
    requires
        old(keymaps).inv(),
    ensures
        final(keymaps).inv(),
        forall|k: KeyEvent| #[trigger] default_binding(k) is Some ==> final(keymaps).bindings().contains_key(seq![k])
            && (default_binding(k)->0)(final(keymaps).bindings()[seq![k]]),
        forall|ks: Seq<KeyEvent>| !(ks.len() == 1 && default_binding(ks[0]) is Some) ==> (#[trigger] final(keymaps).bindings().contains_key(ks)
            == old(keymaps).bindings().contains_key(ks) && (old(keymaps).bindings().contains_key(ks) ==> final(keymaps).bindings()[ks] == old(keymaps).bindings()[ks])),
{
    let ghost start = keymaps.bindings();
    // -------------------------------- EDITOR ---------------------------------
    let mut q = KeyEvent::new(KeyCode::Char('q'));
    q.modifiers.ctrl = true;
    let e1 = call_of("quit");
    let ghost g1 = e1;
    keymaps.insert_key(q, e1);
    // M-x is bound here rather than in a configuration file because it is the
    // only way to reach a command by name.
    let mut x = KeyEvent::new(KeyCode::Char('x'));
    x.modifiers.alt = true;
    let e2 = Sexp::symbol("command-execute-prompt");
    let ghost g2 = e2;
    keymaps.insert_key(x, e2);
    // -------------------------------- BUFFER ---------------------------------
    let mut s = KeyEvent::new(KeyCode::Char('s'));
    s.modifiers.ctrl = true;
    let e3 = call_of("save-buffer");
    let ghost g3 = e3;
    keymaps.insert_key(s, e3);
    let e4 = call_of("backward-char");
    let ghost g4 = e4;
    keymaps.insert_key(KeyEvent::new(KeyCode::Left), e4);
    let e5 = call_of("forward-char");
    let ghost g5 = e5;
    keymaps.insert_key(KeyEvent::new(KeyCode::Right), e5);
    let e6 = call_of("previous-line");
    let ghost g6 = e6;
    keymaps.insert_key(KeyEvent::new(KeyCode::Up), e6);
    let e7 = call_of("next-line");
    let ghost g7 = e7;
    keymaps.insert_key(KeyEvent::new(KeyCode::Down), e7);
    let e8 = call_of("insert-newline");
    let ghost g8 = e8;
    keymaps.insert_key(KeyEvent::new(KeyCode::Enter), e8);
    proof {
        lemma_single_keys_differ();
        let m = keymaps.bindings();
        assert(m == start.insert(seq![ctrl_key('q')], g1).insert(seq![alt_key('x')], g2).insert(
            seq![ctrl_key('s')], g3).insert(seq![plain_key(KeyCode::Left)], g4).insert(
            seq![plain_key(KeyCode::Right)], g5).insert(seq![plain_key(KeyCode::Up)], g6).insert(
            seq![plain_key(KeyCode::Down)], g7).insert(seq![plain_key(KeyCode::Enter)], g8));
        assert(m[seq![ctrl_key('q')]] == g1);
        assert(m[seq![alt_key('x')]] == g2);
        assert(m[seq![ctrl_key('s')]] == g3);
        assert(m[seq![plain_key(KeyCode::Left)]] == g4);
        assert(m[seq![plain_key(KeyCode::Right)]] == g5);
        assert(m[seq![plain_key(KeyCode::Up)]] == g6);
        assert(m[seq![plain_key(KeyCode::Down)]] == g7);
        assert forall|ks: Seq<KeyEvent>| !(ks.len() == 1 && default_binding(ks[0]) is Some) implies (#[trigger] m.contains_key(ks)
            == start.contains_key(ks) && (start.contains_key(ks) ==> m[ks] == start[ks])) by {
            if ks.len() == 1 {
                assert(ks == seq![ks[0]]);
            }
        }
    }
    let ghost fixed = keymaps.bindings();
    let mut b: u8 = 32;
    while b <= 126
        invariant
            keymaps.inv(),
            32 <= b <= 127,
            forall|k: KeyEvent| #[trigger] default_binding(k) is Some && !is_printable_key(k) ==> keymaps.bindings().contains_key(seq![k])
                && (default_binding(k)->0)(keymaps.bindings()[seq![k]]),
            forall|k: KeyEvent| #[trigger] is_printable_key(k) && (k.code->0 as u32) < b ==> keymaps.bindings().contains_key(seq![k])
                && (default_binding(k)->0)(keymaps.bindings()[seq![k]]),
            forall|ks: Seq<KeyEvent>| !(ks.len() == 1 && default_binding(ks[0]) is Some) ==> (#[trigger] keymaps.bindings().contains_key(ks)
                == start.contains_key(ks) && (start.contains_key(ks) ==> keymaps.bindings()[ks] == start[ks])),
        decreases 127 - b,
    {
        let c = b as char;
        let mut text = String::new();
        text.push(c);
        let mut items: Vec<Sexp> = Vec::new();
        items.push(Sexp::symbol("self-insert"));
        items.push(Sexp::string(text));
        let ghost prev = keymaps.bindings();
        keymaps.insert_key(KeyEvent::new(KeyCode::Char(c)), Sexp::form(items));
        proof {
            assert forall|k: KeyEvent| #[trigger] is_printable_key(k) && (k.code->0 as u32) < b + 1 implies keymaps.bindings().contains_key(seq![k])
                && (default_binding(k)->0)(keymaps.bindings()[seq![k]]) by {
                if (k.code->0 as u32) < b {
                    assert(seq![k] != seq![plain_key(KeyCode::Char(c))]);
                } else {
                    assert(k == plain_key(KeyCode::Char(c)));
                }
            }
            assert forall|k: KeyEvent| #[trigger] default_binding(k) is Some && !is_printable_key(k) implies keymaps.bindings().contains_key(seq![k])
                && (default_binding(k)->0)(keymaps.bindings()[seq![k]]) by {
                assert(seq![k] != seq![plain_key(KeyCode::Char(c))]) by {
                    if seq![k] == seq![plain_key(KeyCode::Char(c))] {
                        assert(seq![k][0] == k);
                    }
                }
            }
            assert forall|ks: Seq<KeyEvent>| !(ks.len() == 1 && default_binding(ks[0]) is Some) implies (#[trigger] keymaps.bindings().contains_key(ks)
                == start.contains_key(ks) && (start.contains_key(ks) ==> keymaps.bindings()[ks] == start[ks])) by {
                if ks == seq![plain_key(KeyCode::Char(c))] {
                    assert(ks[0] == plain_key(KeyCode::Char(c)));
                    assert(is_printable_key(ks[0]));
                }
            }
        }
        b = b + 1;
    }
    proof {
        assert forall|k: KeyEvent| #[trigger] default_binding(k) is Some implies keymaps.bindings().contains_key(seq![k])
            && (default_binding(k)->0)(keymaps.bindings()[seq![k]]) by {
            if is_printable_key(k) {
                assert((k.code->0 as u32) < 127);
            }
        }
    }
}

/// What a transient keymap does with a key it does not bind.
///
/// The two answers are different features wearing the same mechanism, so the
/// choice is made once, where the map is installed, rather than guessed at
/// per key.
#[derive(Clone, Copy, Debug, PartialEq, Eq, Structural)]
pub enum OnUnbound {
    /// Swallow it. The map stays up until one of its own keys takes it down:
    /// for a map that is a *question*.
    Refuse,
    /// Dismiss the map, and let the key through to the keymaps underneath as
    /// though the map had never been there: for a map that is an *offer*.
    Release,
}

/// A keymap consulted before every other, for as long as it is installed.
///
/// "Press `y` or `n`" and "press `o` again to keep going" are the same
/// mechanism: a keymap that is consulted first and then goes away. What
/// differs is only [`OnUnbound`].
#[derive(Debug)]
pub struct TransientKeymap<E> {
    pub keymap: Keymap<E>,
    pub on_unbound: OnUnbound,
    /// What to show while the map is live -- `[o]` for a repeat map, a
    /// question for a modal one. Empty to show nothing.
    pub message: String,
}

impl TransientKeymap<Sexp> {
    /// A map offering one key, which runs COMMAND and offers it again.
    pub fn repeating(key: KeyEvent, command: &str) -> (r: Self)
        ensures
            r.keymap.inv(),
            r.keymap.bindings().dom() == set![seq![key]],
            is_symbol(r.keymap.bindings()[seq![key]], command@),
            r.on_unbound == OnUnbound::Release,
            r.message@ == "["@ + key_text(key) + "]"@,
    {
        let mut keymap = Keymap::new();
        keymap.insert_key(key, Sexp::symbol(command));
        let mut keys: Vec<KeyEvent> = Vec::new();
        keys.push(key);
        let described = describe_keys(keys.as_slice());
        let mut message = String::new();
        message.push_str("[");
        message.push_str(described.as_str());
        message.push_str("]");
        proof {
            assert(keys@ =~= seq![key]);
            assert(message@ =~= "["@ + key_text(key) + "]"@);
            assert(keymap.bindings().dom() =~= set![seq![key]]);
        }
        Self { keymap, on_unbound: OnUnbound::Release, message }
    }
}

} // verus!
