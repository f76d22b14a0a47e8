//! The hash catalog: a compact map from 64-bit path hashes to path strings.
//!
//! All paths live in one character arena; `keys` is sorted ascending and
//! `values[i]` locates the path of `keys[i]` in the arena.
use vstd::prelude::*;
use crate::error::Error;
use crate::text::{
    all_digits, append_chars, chars_of, find_char, find_char_from, hex16, hex16_exec,
    parse_unsigned, parse_unsigned_exec, run_before, slice_chars, string_of,
};

verus! {

pub struct Hashtable {
    keys: Vec<u64>,
    values: Vec<(usize, usize)>,
    arena: Vec<char>,
}

impl Hashtable {
    /// The path stored for index `i`.
    pub closed spec fn entry(&self, i: int) -> Seq<char> {
        self.arena@.subrange(self.values@[i].0 as int, self.values@[i].0 + self.values@[i].1)
    }

    /// Keys strictly ascending, one arena range per key, every range inside the arena.
    pub closed spec fn wf(&self) -> bool {
        &&& self.keys@.len() == self.values@.len()
        &&& forall|i: int, j: int|
            0 <= i < j < self.keys@.len() ==> self.keys@[i] < self.keys@[j]
        &&& forall|i: int|
            0 <= i < self.values@.len() ==> #[trigger] self.values@[i].0 + self.values@[i].1
                <= self.arena@.len()
    }

    /// What the first `n` keys are mapped to.
    pub closed spec fn prefix_view(&self, n: int) -> Map<u64, Seq<char>> {
        Map::new(
            |h: u64| exists|i: int| 0 <= i < n && self.keys@[i] == h,
            |h: u64| self.entry(choose|i: int| 0 <= i < n && self.keys@[i] == h),
        )
    }

    /// What the catalog maps each known hash to.
    pub closed spec fn view(&self) -> Map<u64, Seq<char>> {
        self.prefix_view(self.keys@.len() as int)
    }

    proof fn lemma_prefix_step(&self, n: int)
        requires
            self.wf(),
            0 <= n < self.keys@.len(),
        ensures
            !self.prefix_view(n).contains_key(self.keys@[n]),
            self.prefix_view(n + 1) == self.prefix_view(n).insert(self.keys@[n], self.entry(n)),
    {
        let a = self.prefix_view(n + 1);
        let b = self.prefix_view(n).insert(self.keys@[n], self.entry(n));
        if self.prefix_view(n).contains_key(self.keys@[n]) {
            let j = choose|j: int| 0 <= j < n && self.keys@[j] == self.keys@[n];
            assert(self.keys@[j] < self.keys@[n]);
        }
        assert forall|h: u64| a.contains_key(h) <==> b.contains_key(h) by {
            if a.contains_key(h) {
                let j = choose|j: int| 0 <= j < n + 1 && self.keys@[j] == h;
                if j < n {
                    assert(self.prefix_view(n).contains_key(h));
                }
            }
            if b.contains_key(h) && h != self.keys@[n] {
                let j = choose|j: int| 0 <= j < n && self.keys@[j] == h;
                assert(0 <= j < n + 1 && self.keys@[j] == h);
            }
        }
        assert forall|h: u64| #[trigger] a.contains_key(h) implies a[h] == b[h] by {
            let j = choose|j: int| 0 <= j < n + 1 && self.keys@[j] == h;
            if h == self.keys@[n] {
                if j < n {
                    assert(self.keys@[j] < self.keys@[n]);
                }
            } else {
                let j2 = choose|j2: int| 0 <= j2 < n && self.keys@[j2] == h;
                if j < j2 {
                    assert(self.keys@[j] < self.keys@[j2]);
                } else if j2 < j {
                    assert(self.keys@[j2] < self.keys@[j]);
                }
            }
        }
        assert(a =~= b);
    }

    proof fn lemma_prefix_zero(&self)
        ensures
            self.prefix_view(0) == Map::<u64, Seq<char>>::empty(),
    {
        assert(self.prefix_view(0) =~= Map::<u64, Seq<char>>::empty());
    }

    fn key_exec(&self, i: usize) -> (r: u64)
        requires
            self.wf(),
            i < self.keys@.len(),
        ensures
            r == self.keys@[i as int],
    {
        self.keys[i]
    }

    fn entry_exec(&self, i: usize) -> (r: Vec<char>)
        requires
            self.wf(),
            i < self.keys@.len(),
        ensures
            r@ == self.entry(i as int),
    {
        let (off, len) = self.values[i];
        let n = self.arena.len();
        assert(off + len <= n);
        slice_chars(&self.arena, off, off + len)
    }

    /// Adds every mapping of `other` whose hash is not held yet; held hashes keep
    /// their paths.
    pub fn absorb(&mut self, other: &Hashtable)
        requires
            old(self).wf(),
            other.wf(),
        ensures
            final(self).wf(),
            final(self).view() == other.view().union_prefer_right(old(self).view()),
    {
        let mut i: usize = 0;
        proof {
            other.lemma_prefix_zero();
            assert(other.prefix_view(0).union_prefer_right(self.view()) =~= self.view());
        }
        while i < other.keys.len()
            invariant
                self.wf(),
                other.wf(),
                i <= other.keys@.len(),
                self.view() == other.prefix_view(i as int).union_prefer_right(old(self).view()),
            decreases other.keys@.len() - i,
        {
            let k = other.key_exec(i);
            proof {
                other.lemma_prefix_step(i as int);
            }
            if !self.contains(k) {
                let e = other.entry_exec(i);
                self.insert(k, &e);
                assert(self.view() =~= other.prefix_view(i + 1).union_prefer_right(old(self).view()));
            } else {
                assert(self.view() =~= other.prefix_view(i + 1).union_prefer_right(old(self).view()));
            }
            i = i + 1;
        }
    }

    proof fn lemma_view_at(&self, i: int)
        requires
            self.wf(),
            0 <= i < self.keys@.len(),
        ensures
            self.view().contains_key(self.keys@[i]),
            self.view()[self.keys@[i]] == self.entry(i),
    {
        let h = self.keys@[i];
        assert(exists|j: int| 0 <= j < self.keys@.len() && self.keys@[j] == h);
        let j = choose|j: int| 0 <= j < self.keys@.len() && self.keys@[j] == h;
        if j < i {
            assert(self.keys@[j] < self.keys@[i]);
        } else if i < j {
            assert(self.keys@[i] < self.keys@[j]);
        }
    }

    /// The empty catalog.
    pub fn empty() -> (r: Hashtable)
        ensures
            r.wf(),
            r.view() == Map::<u64, Seq<char>>::empty(),
    {
        let r = Hashtable { keys: Vec::new(), values: Vec::new(), arena: Vec::new() };
        assert(r.view() =~= Map::<u64, Seq<char>>::empty());
        r
    }

    /// Number of distinct hashes held.
    pub fn len(&self) -> (r: usize)
        requires
            self.wf(),
        ensures
            r == self.view().len(),
    {
        proof {
            self.lemma_len();
        }
        self.keys.len()
    }

    pub fn is_empty(&self) -> (r: bool)
        requires
            self.wf(),
        ensures
            r == (self.view().len() == 0),
    {
        proof {
            self.lemma_len();
        }
        self.keys.len() == 0
    }

    proof fn lemma_len(&self)
        requires
            self.wf(),
        ensures
            self.view().dom().finite(),
            self.view().len() == self.keys@.len(),
    {
        let ks = self.keys@;
        assert forall|k: int, l: int| 0 <= k < l < ks.len() implies ks[k] != ks[l] by {
            assert(ks[k] < ks[l]);
        }
        assert(ks.no_duplicates());
        assert(self.view().dom() =~= ks.to_set());
        ks.unique_seq_to_set();
    }

    /// The index of `h` in `keys`, or where it would be inserted.
    fn search(&self, h: u64) -> (r: Result<usize, usize>)
        requires
            self.wf(),
        ensures
            match r {
                Ok(i) => i < self.keys@.len() && self.keys@[i as int] == h,
                Err(i) => i <= self.keys@.len() && (forall|j: int|
                    0 <= j < i ==> self.keys@[j] < h) && (forall|j: int|
                    i <= j < self.keys@.len() ==> h < self.keys@[j]),
            },
    {
        let mut lo: usize = 0;
        let mut hi: usize = self.keys.len();
        while lo < hi
            invariant
                self.wf(),
                lo <= hi <= self.keys@.len(),
                forall|j: int| 0 <= j < lo ==> self.keys@[j] < h,
                forall|j: int| hi <= j < self.keys@.len() ==> h < self.keys@[j],
            decreases hi - lo,
        {
            let mid = lo + (hi - lo) / 2;
            let k = self.keys[mid];
            if k == h {
                return Ok(mid);
            } else if k < h {
                assert forall|j: int| 0 <= j < mid + 1 implies self.keys@[j] < h by {
                    if j < mid {
                        assert(self.keys@[j] < self.keys@[mid as int]);
                    }
                }
                lo = mid + 1;
            } else {
                assert forall|j: int| mid <= j < self.keys@.len() implies h < self.keys@[j] by {
                    if j > mid {
                        assert(self.keys@[mid as int] < self.keys@[j]);
                    }
                }
                hi = mid;
            }
        }
        Err(lo)
    }

    /// Whether `h` is held.
    pub fn contains(&self, h: u64) -> (r: bool)
        requires
            self.wf(),
        ensures
            r == self.view().contains_key(h),
    {
        match self.search(h) {
            Ok(i) => {
                proof {
                    self.lemma_view_at(i as int);
                }
                true
            },
            Err(i) => {
                assert(!self.view().contains_key(h)) by {
                    if exists|j: int| 0 <= j < self.keys@.len() && self.keys@[j] == h {
                        let j = choose|j: int| 0 <= j < self.keys@.len() && self.keys@[j] == h;
                        if j < i {
                        } else {
                        }
                    }
                }
                false
            },
        }
    }

    /// The characters of the path held for `h`, if any.
    fn lookup(&self, h: u64) -> (r: Option<Vec<char>>)
        requires
            self.wf(),
        ensures
            match r {
                Some(v) => self.view().contains_key(h) && v@ == self.view()[h],
                None => !self.view().contains_key(h),
            },
    {
        match self.search(h) {
            Ok(i) => {
                proof {
                    self.lemma_view_at(i as int);
                }
                let (off, len) = self.values[i];
                let n = self.arena.len();
                assert(off + len <= n);
                Some(slice_chars(&self.arena, off, off + len))
            },
            Err(i) => {
                assert(!self.view().contains_key(h)) by {
                    if exists|j: int| 0 <= j < self.keys@.len() && self.keys@[j] == h {
                        let j = choose|j: int| 0 <= j < self.keys@.len() && self.keys@[j] == h;
                        if j < i {
                        } else {
                        }
                    }
                }
                None
            },
        }
    }

    /// The path of `hash`, or its sixteen-digit lowercase hex form when unknown.
    pub fn resolve(&self, hash: u64) -> (r: String)
        requires
            self.wf(),
        ensures
            r@ == (if self.view().contains_key(hash) {
                self.view()[hash]
            } else {
                hex16(hash)
            }),
    {
        match self.lookup(hash) {
            Some(v) => string_of(&v),
            None => string_of(&hex16_exec(hash)),
        }
    }

    /// Maps `h` to `path`, replacing what it was mapped to.
    pub fn insert(&mut self, h: u64, path: &[char])
        requires
            old(self).wf(),
        ensures
            final(self).wf(),
            final(self).view() == old(self).view().insert(h, path@),
    {
        let off = self.arena.len();
        append_chars(&mut self.arena, path);
        let len = path.len();
        assert(self.arena@.subrange(off as int, off + len) =~= path@);
        let ghost pre = *old(self);
        assert forall|i: int| 0 <= i < self.keys@.len() implies self.entry(i) == pre.entry(i) by {
            assert(self.arena@.subrange(self.values@[i].0 as int, self.values@[i].0 + self.values@[i].1)
                =~= pre.arena@.subrange(self.values@[i].0 as int, self.values@[i].0 + self.values@[i].1));
        }
        match self.search(h) {
            Ok(i) => {
                self.values.set(i, (off, len));
                assert(self.entry(i as int) == path@);
                assert forall|j: int| 0 <= j < self.keys@.len() && j != i implies self.entry(j)
                    == pre.entry(j) by {}
                assert(self.view() =~= pre.view().insert(h, path@)) by {
                    assert forall|k: u64| #[trigger] self.view().contains_key(k) implies self.view()[k]
                        == pre.view().insert(h, path@)[k] by {
                        let j = choose|j: int| 0 <= j < self.keys@.len() && self.keys@[j] == k;
                        self.lemma_view_at(j);
                        pre.lemma_view_at(j);
                        if j != i {
                            assert(self.keys@[j] != h) by {
                                if j < i {
                                    assert(self.keys@[j] < self.keys@[i as int]);
                                } else {
                                    assert(self.keys@[i as int] < self.keys@[j]);
                                }
                            }
                        }
                    }
                }
            },
            Err(i) => {
                self.keys.insert(i, h);
                self.values.insert(i, (off, len));
                assert(self.entry(i as int) == path@);
                assert forall|j: int| 0 <= j < i implies #[trigger] self.entry(j) == pre.entry(j)
                    && self.keys@[j] == pre.keys@[j] by {}
                assert forall|j: int| i <= j < pre.keys@.len() implies #[trigger] self.entry(j + 1)
                    == pre.entry(j) && self.keys@[j + 1] == pre.keys@[j] by {
                    assert(self.values@[j + 1] == pre.values@[j]);
                }
                assert forall|a: int, b: int|
                    0 <= a < b < self.keys@.len() implies self.keys@[a] < self.keys@[b] by {
                    if b < i {
                        assert(pre.keys@[a] < pre.keys@[b]);
                    } else if b == i {
                    } else if a < i {
                    } else if a == i {
                        assert(self.keys@[b] == pre.keys@[b - 1]);
                    } else {
                        assert(pre.keys@[a - 1] < pre.keys@[b - 1]);
                    }
                }
                assert(self.wf());
                assert(self.view() =~= pre.view().insert(h, path@)) by {
                    assert forall|k: u64| #[trigger] pre.view().insert(h, path@).contains_key(k)
                        implies self.view().contains_key(k) by {
                        if k == h {
                            self.lemma_view_at(i as int);
                        } else {
                            let j = choose|j: int| 0 <= j < pre.keys@.len() && pre.keys@[j] == k;
                            self.lemma_view_at(if j < i { j } else { j + 1 });
                        }
                    }
                    assert forall|k: u64| #[trigger] self.view().contains_key(k) implies self.view()[k]
                        == pre.view().insert(h, path@)[k] by {
                        let j = choose|j: int| 0 <= j < self.keys@.len() && self.keys@[j] == k;
                        self.lemma_view_at(j);
                        if j < i {
                            pre.lemma_view_at(j);
                        } else if j > i {
                            pre.lemma_view_at(j - 1);
                        }
                    }
                }
            },
        }
    }
}

/// The lines of a text: split at each `\n`, with no line after a final `\n`.
pub open spec fn lines_of(s: Seq<char>) -> Seq<Seq<char>>
    decreases s.len(),
{
    if s.len() == 0 {
        Seq::empty()
    } else {
        let n = run_before(s, '\n');
        if n >= s.len() {
            seq![s]
        } else {
            seq![s.take(n as int)] + lines_of(s.skip(n + 1 as int))
        }
    }
}

/// The whitespace that manifest lines are trimmed of.
pub open spec fn is_space(c: char) -> bool {
    c == ' ' || c == '\t' || c == '\n' || c == '\r' || c == '\x0B' || c == '\x0C'
}

/// Number of leading whitespace characters.
pub open spec fn lead_space(s: Seq<char>) -> nat
    decreases s.len(),
{
    if s.len() == 0 || !is_space(s[0]) {
        0
    } else {
        1 + lead_space(s.skip(1))
    }
}

/// Number of trailing whitespace characters.
pub open spec fn trail_space(s: Seq<char>) -> nat
    decreases s.len(),
{
    if s.len() == 0 || !is_space(s.last()) {
        0
    } else {
        1 + trail_space(s.drop_last())
    }
}

/// `s` without leading and trailing whitespace.
pub open spec fn trimmed(s: Seq<char>) -> Seq<char> {
    if lead_space(s) >= s.len() {
        Seq::empty()
    } else {
        s.subrange(lead_space(s) as int, s.len() - trail_space(s))
    }
}

/// The value of a hash token: hex after `0x` or `0X`, decimal when all digits,
/// hex when all hex digits; `None` for anything else or a value over 64 bits.
pub open spec fn parse_hash(t: Seq<char>) -> Option<u64> {
    let v = if t.len() >= 2 && t[0] == '0' && (t[1] == 'x' || t[1] == 'X') {
        parse_unsigned(t.skip(2), 16, 0xffff_ffff_ffff_ffff)
    } else if all_digits(t, 10) {
        parse_unsigned(t, 10, 0xffff_ffff_ffff_ffff)
    } else if all_digits(t, 16) {
        parse_unsigned(t, 16, 0xffff_ffff_ffff_ffff)
    } else {
        None
    };
    match v {
        Some(n) => Some(n as u64),
        None => None,
    }
}

/// What one manifest line holds.
pub enum LineOutcome {
    /// A blank line, a `#` comment, or a line with no space.
    Skip,
    Entry(u64, Seq<char>),
    /// A line whose hash token (given) is no valid hash.
    Invalid(Seq<char>),
}

/// A trimmed line `<hash> <path>`: the hash runs to the first space, the path is
/// the rest.
pub open spec fn line_outcome(line: Seq<char>) -> LineOutcome {
    let t = trimmed(line);
    if t.len() == 0 || t[0] == '#' {
        LineOutcome::Skip
    } else {
        let n = run_before(t, ' ');
        if n >= t.len() {
            LineOutcome::Skip
        } else {
            match parse_hash(t.take(n as int)) {
                Some(h) => LineOutcome::Entry(h, t.skip(n + 1 as int)),
                None => LineOutcome::Invalid(t.take(n as int)),
            }
        }
    }
}

/// The entries of a manifest's lines in order, or the 1-based number of the
/// first invalid line with its hash token.
pub open spec fn manifest_entries(lines: Seq<Seq<char>>) -> core::result::Result<
    Seq<(u64, Seq<char>)>,
    (nat, Seq<char>),
>
    decreases lines.len(),
{
    if lines.len() == 0 {
        Ok(Seq::empty())
    } else {
        match manifest_entries(lines.drop_last()) {
            Err(e) => Err(e),
            Ok(es) => match line_outcome(lines.last()) {
                LineOutcome::Skip => Ok(es),
                LineOutcome::Entry(h, p) => Ok(es.push((h, p))),
                LineOutcome::Invalid(tok) => Err((lines.len(), tok)),
            },
        }
    }
}

/// `m` updated by each entry in turn: a later entry for a hash replaces an earlier one.
pub open spec fn apply_entries(m: Map<u64, Seq<char>>, es: Seq<(u64, Seq<char>)>) -> Map<
    u64,
    Seq<char>,
>
    decreases es.len(),
{
    if es.len() == 0 {
        m
    } else {
        apply_entries(m, es.drop_last()).insert(es.last().0, es.last().1)
    }
}

proof fn lemma_entries_err_extends(a: Seq<Seq<char>>, b: Seq<Seq<char>>)
    requires
        manifest_entries(a) is Err,
    ensures
        manifest_entries(a + b) == manifest_entries(a),
    decreases b.len(),
{
    if b.len() == 0 {
        assert(a + b =~= a);
    } else {
        lemma_entries_err_extends(a, b.drop_last());
        assert((a + b).drop_last() =~= a + b.drop_last());
    }
}

proof fn lemma_lines_step(s: Seq<char>, pos: int, e: int)
    requires
        0 <= pos < s.len(),
        e == pos + run_before(s.skip(pos), '\n'),
        e <= s.len(),
    ensures
        lines_of(s.skip(pos)) == seq![s.subrange(pos, e)] + lines_of(
            s.skip(if e < s.len() { e + 1 } else { s.len() as int }),
        ),
{
    let t = s.skip(pos);
    let n = run_before(t, '\n');
    assert(t.take(n as int) =~= s.subrange(pos, e));
    if n >= t.len() {
        assert(t =~= s.subrange(pos, e));
        assert(s.skip(s.len() as int) =~= Seq::<char>::empty());
        assert(lines_of(Seq::<char>::empty()) =~= Seq::<Seq<char>>::empty());
        assert(lines_of(t) =~= seq![s.subrange(pos, e)] + lines_of(s.skip(s.len() as int)));
    } else {
        assert(t.skip(n + 1 as int) =~= s.skip(e + 1));
    }
}

fn lead_space_exec(s: &[char]) -> (r: usize)
    ensures
        r as nat == lead_space(s@),
        r <= s@.len(),
        r < s@.len() ==> !is_space(s@[r as int]),
{
    let mut i: usize = 0;
    assert(s@.skip(0) =~= s@);
    while i < s.len() && (s[i] == ' ' || s[i] == '\t' || s[i] == '\n' || s[i] == '\r' || s[i]
        == '\x0B' || s[i] == '\x0C')
        invariant
            i <= s@.len(),
            lead_space(s@) == i + lead_space(s@.skip(i as int)),
        decreases s@.len() - i,
    {
        assert(s@.skip(i as int).skip(1) =~= s@.skip(i + 1));
        i = i + 1;
    }
    i
}

/// The trimmed form of a line.
pub(crate) fn trim_exec(s: &[char]) -> (r: Vec<char>)
    ensures
        r@ == trimmed(s@),
{
    let lead = lead_space_exec(s);
    if lead >= s.len() {
        return Vec::new();
    }
    let mut end: usize = s.len();
    assert(s@.take(s@.len() as int) =~= s@);
    while end > lead && (s[end - 1] == ' ' || s[end - 1] == '\t' || s[end - 1] == '\n' || s[end
        - 1] == '\r' || s[end - 1] == '\x0B' || s[end - 1] == '\x0C')
        invariant
            lead < s@.len(),
            !is_space(s@[lead as int]),
            lead <= end <= s@.len(),
            end > lead,
            trail_space(s@) == (s@.len() - end) + trail_space(s@.take(end as int)),
        decreases end,
    {
        assert(s@.take(end as int).drop_last() =~= s@.take(end - 1));
        end = end - 1;
    }
    assert(trail_space(s@.take(end as int)) == 0);
    slice_chars(s, lead, end)
}

pub(crate) fn is_digits_exec(t: &[char], radix: u64) -> (r: bool)
    requires
        radix == 10 || radix == 16,
    ensures
        r == all_digits(t@, radix as nat),
{
    let mut i: usize = 0;
    while i < t.len()
        invariant
            i <= t@.len(),
            forall|j: int| 0 <= j < i ==> #[trigger] crate::text::digit_value(t@[j]) < radix,
        decreases t@.len() - i,
    {
        if crate::text::digit_value_exec(t[i]) >= radix {
            return false;
        }
        i = i + 1;
    }
    true
}

fn parse_hash_exec(t: &[char]) -> (r: Option<u64>)
    ensures
        r == parse_hash(t@),
{
    let v = if t.len() >= 2 && t[0] == '0' && (t[1] == 'x' || t[1] == 'X') {
        parse_unsigned_exec(&slice_chars(t, 2, t.len()), 16, 0xffff_ffff_ffff_ffff)
    } else if is_digits_exec(t, 10) {
        parse_unsigned_exec(t, 10, 0xffff_ffff_ffff_ffff)
    } else if is_digits_exec(t, 16) {
        parse_unsigned_exec(t, 16, 0xffff_ffff_ffff_ffff)
    } else {
        None
    };
    v
}

/// One manifest line, read.
enum ParsedLine {
    Skip,
    Entry(u64, Vec<char>),
    Invalid(Vec<char>),
}

fn parse_line(line: &[char]) -> (r: ParsedLine)
    ensures
        match line_outcome(line@) {
            LineOutcome::Skip => r is Skip,
            LineOutcome::Entry(h, p) => r matches ParsedLine::Entry(rh, rp) && rh == h && rp@ == p,
            LineOutcome::Invalid(t) => r matches ParsedLine::Invalid(rt) && rt@ == t,
        },
{
    let t = trim_exec(line);
    if t.len() == 0 || t[0] == '#' {
        return ParsedLine::Skip;
    }
    let n = find_char(&t, ' ');
    if n >= t.len() {
        return ParsedLine::Skip;
    }
    let tok = slice_chars(&t, 0, n);
    match parse_hash_exec(&tok) {
        Some(h) => ParsedLine::Entry(h, slice_chars(&t, n + 1, t.len())),
        None => ParsedLine::Invalid(tok),
    }
}

/// Reads a manifest into `table`, a later line for a hash replacing an earlier one.
/// On an invalid line, gives its 1-based number and its hash token.
fn read_manifest(content: &[char], table: &mut Hashtable) -> (r: core::result::Result<
    (),
    (usize, Vec<char>),
>)
    requires
        old(table).wf(),
    ensures
        final(table).wf(),
        match manifest_entries(lines_of(content@)) {
            Ok(es) => r is Ok && final(table).view() == apply_entries(old(table).view(), es),
            Err((n, tok)) => r matches Err((l, t)) && l == n && t@ == tok,
        },
{
    let ghost processed: Seq<Seq<char>> = Seq::empty();
    let mut pos: usize = 0;
    let mut count: usize = 0;
    assert(content@.skip(0) =~= content@);
    assert(processed + lines_of(content@.skip(0)) =~= lines_of(content@));
    while pos < content.len()
        invariant
            table.wf(),
            pos <= content@.len(),
            count == processed.len(),
            count <= pos,
            lines_of(content@) == processed + lines_of(content@.skip(pos as int)),
            manifest_entries(processed) is Ok,
            table.view() == apply_entries(old(table).view(), manifest_entries(processed)->Ok_0),
        decreases content@.len() - pos,
    {
        let e = find_char_from(content, pos, '\n');
        proof {
            lemma_lines_step(content@, pos as int, e as int);
        }
        let line = slice_chars(content, pos, e);
        let ghost before = processed;
        proof {
            processed = processed.push(line@);
            assert(processed.drop_last() =~= before);
        }
        count = count + 1;
        let next: usize = if e < content.len() {
            e + 1
        } else {
            content.len()
        };
        assert(lines_of(content@) == processed + lines_of(content@.skip(next as int))) by {
            assert(before + (seq![line@] + lines_of(content@.skip(next as int))) =~= processed
                + lines_of(content@.skip(next as int)));
        }
        match parse_line(&line) {
            ParsedLine::Skip => {},
            ParsedLine::Entry(h, p) => {
                table.insert(h, &p);
                let ghost es = manifest_entries(before)->Ok_0;
                assert(manifest_entries(processed)->Ok_0 =~= es.push((h, p@)));
                assert(es.push((h, p@)).drop_last() =~= es);
            },
            ParsedLine::Invalid(tok) => {
                proof {
                    lemma_entries_err_extends(processed, lines_of(content@.skip(next as int)));
                }
                return Err((count, tok));
            },
        }
        pos = next;
    }
    assert(content@.skip(pos as int) =~= Seq::<char>::empty());
    assert(lines_of(content@.skip(pos as int)) =~= Seq::<Seq<char>>::empty());
    assert(processed =~= lines_of(content@));
    Ok(())
}

/// The message of a manifest line whose hash token `tok` is invalid.
pub open spec fn invalid_hash_message(tok: Seq<char>) -> Seq<char> {
    "Invalid hash value: '"@ + tok + "' - must be decimal, hex, or 0x-prefixed hex"@
}

/// One file of a hash directory: its name, and its text where it could be read.
pub struct ManifestFile {
    pub name: String,
    pub content: Option<String>,
}

/// Whether a file name has the extension `txt`.
pub open spec fn is_txt_name(n: Seq<char>) -> bool {
    n.len() > ".txt"@.len() && n.skip(n.len() - ".txt"@.len()) == ".txt"@
}

/// The catalog that a directory listing yields: manifests are the `.txt` files that
/// could be read, taken in order; within a file a later line for a hash wins,
/// across files the first file that maps a hash wins. An invalid line fails the
/// whole build with the index of its file, its line number and its hash token.
pub open spec fn catalog_of(files: Seq<ManifestFile>) -> core::result::Result<
    Map<u64, Seq<char>>,
    (nat, nat, Seq<char>),
>
    decreases files.len(),
{
    if files.len() == 0 {
        Ok(Map::empty())
    } else {
        match catalog_of(files.drop_last()) {
            Err(e) => Err(e),
            Ok(m) => {
                let f = files.last();
                if !is_txt_name(f.name@) || f.content is None {
                    Ok(m)
                } else {
                    match manifest_entries(lines_of(f.content->Some_0@)) {
                        Err((l, tok)) => Err(((files.len() - 1) as nat, l, tok)),
                        Ok(es) => Ok(apply_entries(Map::empty(), es).union_prefer_right(m)),
                    }
                }
            },
        }
    }
}

fn is_txt_exec(n: &str) -> (r: bool)
    ensures
        r == is_txt_name(n@),
{
    let c = chars_of(n);
    let ext = chars_of(".txt");
    if c.len() <= ext.len() {
        return false;
    }
    let tail = slice_chars(&c, c.len() - ext.len(), c.len());
    assert(tail@ =~= n@.skip(n@.len() - ".txt"@.len()));
    let mut i: usize = 0;
    while i < ext.len()
        invariant
            tail@.len() == ext@.len(),
            ext@ == ".txt"@,
            n@.len() > ".txt"@.len(),
            tail@ == n@.skip(n@.len() - ".txt"@.len()),
            i <= ext@.len(),
            forall|j: int| 0 <= j < i ==> tail@[j] == ext@[j],
        decreases ext@.len() - i,
    {
        if tail[i] != ext[i] {
            assert(tail@[i as int] != ext@[i as int]);
            assert(tail@ != ext@);
            return false;
        }
        i = i + 1;
    }
    assert(tail@ =~= ext@);
    true
}

impl Hashtable {
    /// Builds the catalog from the listing of a hash directory.
    pub fn from_files(dir: &str, dir_exists: bool, files: &Vec<ManifestFile>) -> (r: core::result::Result<
        Hashtable,
        Error,
    >)
        ensures
            !dir_exists ==> (r matches Err(Error::Hash(m)) && m@ == "Hash directory does not exist: "@
                + dir@),
            dir_exists ==> match catalog_of(files@) {
                Ok(m) => (r matches Ok(t) && t.wf() && t.view() == m),
                Err((i, l, tok)) => (r matches Err(Error::Parse { line, message, path: Some(p) })
                    && line == l && message@ == invalid_hash_message(tok) && p@
                    == files@[i as int].name@),
            },
    {
        if !dir_exists {
            let mut m = chars_of("Hash directory does not exist: ");
            append_chars(&mut m, &chars_of(dir));
            return Err(Error::Hash(string_of(&m)));
        }
        let mut global = Hashtable::empty();
        let mut i: usize = 0;
        while i < files.len()
            invariant
                dir_exists,
                global.wf(),
                i <= files@.len(),
                catalog_of(files@.take(i as int)) is Ok,
                global.view() == catalog_of(files@.take(i as int))->Ok_0,
            decreases files@.len() - i,
        {
            assert(files@.take(i + 1).drop_last() =~= files@.take(i as int));
            let f = &files[i];
            if is_txt_exec(&f.name) {
                if let Some(content) = &f.content {
                    let mut table = Hashtable::empty();
                    match read_manifest(&chars_of(content), &mut table) {
                        Ok(()) => {
                            global.absorb(&table);
                        },
                        Err((line, tok)) => {
                            proof {
                                lemma_catalog_err_extends(files@, i as int + 1);
                            }
                            let mut m = chars_of("Invalid hash value: '");
                            append_chars(&mut m, &tok);
                            append_chars(
                                &mut m,
                                &chars_of("' - must be decimal, hex, or 0x-prefixed hex"),
                            );
                            assert(m@ =~= invalid_hash_message(tok@));
                            return Err(Error::Parse {
                                line,
                                message: string_of(&m),
                                path: Some(string_of(&chars_of(&f.name))),
                            });
                        },
                    }
                }
            }
            i = i + 1;
        }
        assert(files@.take(files@.len() as int) =~= files@);
        Ok(global)
    }
}

proof fn lemma_catalog_err_extends(files: Seq<ManifestFile>, k: int)
    requires
        0 <= k <= files.len(),
        catalog_of(files.take(k)) is Err,
    ensures
        catalog_of(files) == catalog_of(files.take(k)),
    decreases files.len() - k,
{
    if k < files.len() {
        assert(files.take(k + 1).drop_last() =~= files.take(k));
        lemma_catalog_err_extends(files, k + 1);
    } else {
        assert(files.take(k) =~= files);
    }
}

proof fn lemma_apply_last(m: Map<u64, Seq<char>>, es: Seq<(u64, Seq<char>)>, i: int)
    requires
        0 <= i < es.len(),
        forall|j: int| i < j < es.len() ==> (#[trigger] es[j]).0 != es[i].0,
    ensures
        apply_entries(m, es).contains_key(es[i].0),
        apply_entries(m, es)[es[i].0] == es[i].1,
    decreases es.len(),
{
    if i < es.len() - 1 {
        let d = es.drop_last();
        assert forall|j: int| i < j < d.len() implies (#[trigger] d[j]).0 != d[i].0 by {
            assert(d[j] == es[j]);
        }
        lemma_apply_last(m, d, i);
        assert(es[es.len() - 1].0 != es[i].0);
    }
}

/// Each entry of a manifest is what the catalog built from it maps the entry's hash
/// to, unless a later line of the same manifest maps that hash again.
pub proof fn law_manifest_entry_resolves(f: ManifestFile, es: Seq<(u64, Seq<char>)>, i: int)
    requires
        is_txt_name(f.name@),
        f.content is Some,
        manifest_entries(lines_of(f.content->Some_0@)) == Ok::<Seq<(u64, Seq<char>)>, (nat, Seq<char>)>(
            es,
        ),
        0 <= i < es.len(),
        forall|j: int| i < j < es.len() ==> (#[trigger] es[j]).0 != es[i].0,
    ensures
        catalog_of(seq![f]) is Ok,
        catalog_of(seq![f])->Ok_0.contains_key(es[i].0),
        catalog_of(seq![f])->Ok_0[es[i].0] == es[i].1,
{
    let files = seq![f];
    assert(files.drop_last() =~= Seq::<ManifestFile>::empty());
    assert(files.last() == f);
    assert(catalog_of(files.drop_last()) == core::result::Result::<
        Map<u64, Seq<char>>,
        (nat, nat, Seq<char>),
    >::Ok(Map::empty()));
    lemma_apply_last(Map::empty(), es, i);
    let m = apply_entries(Map::empty(), es);
    assert(catalog_of(files) == core::result::Result::<Map<u64, Seq<char>>, (nat, nat, Seq<char>)>::Ok(
        m.union_prefer_right(Map::empty()),
    ));
}

/// The entries a listed file contributes: those of a readable `.txt` manifest
/// that parses.
pub open spec fn file_entries(f: ManifestFile) -> Option<Seq<(u64, Seq<char>)>> {
    if is_txt_name(f.name@) && f.content is Some {
        match manifest_entries(lines_of(f.content->Some_0@)) {
            Ok(es) => Some(es),
            Err(_) => None,
        }
    } else {
        None
    }
}

/// No entry of `es` has hash `h`.
pub open spec fn lacks_hash(es: Seq<(u64, Seq<char>)>, h: u64) -> bool {
    forall|j: int| 0 <= j < es.len() ==> (#[trigger] es[j]).0 != h
}

proof fn lemma_apply_keys(m: Map<u64, Seq<char>>, es: Seq<(u64, Seq<char>)>, h: u64)
    requires
        !m.contains_key(h),
        lacks_hash(es, h),
    ensures
        !apply_entries(m, es).contains_key(h),
    decreases es.len(),
{
    if es.len() > 0 {
        let d = es.drop_last();
        assert forall|j: int| 0 <= j < d.len() implies (#[trigger] d[j]).0 != h by {
            assert(d[j] == es[j]);
        }
        lemma_apply_keys(m, d, h);
        assert(es[es.len() - 1].0 != h);
    }
}

proof fn lemma_catalog_lacks(files: Seq<ManifestFile>, h: u64)
    requires
        catalog_of(files) is Ok,
        forall|k: int|
            0 <= k < files.len() && (#[trigger] file_entries(files[k])) is Some ==> lacks_hash(
                file_entries(files[k])->Some_0,
                h,
            ),
    ensures
        !catalog_of(files)->Ok_0.contains_key(h),
    decreases files.len(),
{
    if files.len() > 0 {
        let d = files.drop_last();
        assert forall|k: int|
            0 <= k < d.len() && (#[trigger] file_entries(d[k])) is Some implies lacks_hash(
            file_entries(d[k])->Some_0,
            h,
        ) by {
            assert(d[k] == files[k]);
        }
        lemma_catalog_lacks(d, h);
        let f = files.last();
        if is_txt_name(f.name@) && f.content is Some {
            let es = manifest_entries(lines_of(f.content->Some_0@))->Ok_0;
            assert(file_entries(files[files.len() - 1]) is Some);
            lemma_apply_keys(Map::empty(), es, h);
        }
    }
}

/// Across every manifest of a listing: an entry whose hash no other entry of any
/// manifest has is what the catalog maps that hash to.
pub proof fn law_unique_entry_resolves(files: Seq<ManifestFile>, k: int, i: int)
    requires
        catalog_of(files) is Ok,
        0 <= k < files.len(),
        file_entries(files[k]) is Some,
        0 <= i < file_entries(files[k])->Some_0.len(),
        forall|j: int|
            0 <= j < file_entries(files[k])->Some_0.len() && j != i ==> (#[trigger] file_entries(
                files[k],
            )->Some_0[j]).0 != file_entries(files[k])->Some_0[i].0,
        forall|k2: int|
            0 <= k2 < files.len() && k2 != k && (#[trigger] file_entries(files[k2])) is Some
                ==> lacks_hash(file_entries(files[k2])->Some_0, file_entries(files[k])->Some_0[i].0),
    ensures
        catalog_of(files)->Ok_0.contains_key(file_entries(files[k])->Some_0[i].0),
        catalog_of(files)->Ok_0[file_entries(files[k])->Some_0[i].0] == file_entries(
            files[k],
        )->Some_0[i].1,
    decreases files.len(),
{
    let es = file_entries(files[k])->Some_0;
    let h = es[i].0;
    let d = files.drop_last();
    let n = files.len() - 1;
    assert forall|x: int| 0 <= x < d.len() implies #[trigger] d[x] == files[x] by {}
    if k == n {
        assert forall|k2: int|
            0 <= k2 < d.len() && (#[trigger] file_entries(d[k2])) is Some implies lacks_hash(
            file_entries(d[k2])->Some_0,
            h,
        ) by {
            assert(d[k2] == files[k2]);
        }
        lemma_catalog_lacks(d, h);
        assert forall|j: int| i < j < es.len() implies (#[trigger] es[j]).0 != es[i].0 by {}
        lemma_apply_last(Map::empty(), es, i);
    } else {
        assert(d[k] == files[k]);
        assert forall|j: int|
            0 <= j < file_entries(d[k])->Some_0.len() && j != i implies (#[trigger] file_entries(
            d[k],
        )->Some_0[j]).0 != file_entries(d[k])->Some_0[i].0 by {}
        assert forall|k2: int|
            0 <= k2 < d.len() && k2 != k && (#[trigger] file_entries(d[k2])) is Some implies lacks_hash(
            file_entries(d[k2])->Some_0,
            file_entries(d[k])->Some_0[i].0,
        ) by {
            assert(d[k2] == files[k2]);
        }
        law_unique_entry_resolves(d, k, i);
    }
}

/// An unknown hash resolves to exactly sixteen lowercase hex digits.
pub proof fn law_hex_fallback_shape(h: u64)
    ensures
        hex16(h).len() == 16,
        forall|i: int|
            0 <= i < 16 ==> {
                let c = #[trigger] hex16(h)[i];
                ('0' <= c && c <= '9') || ('a' <= c && c <= 'f')
            },
{
    assert forall|i: int| 0 <= i < 16 implies {
        let c = #[trigger] hex16(h)[i];
        ('0' <= c && c <= '9') || ('a' <= c && c <= 'f')
    } by {
        let sh = (60 - 4 * i) as u64;
        assert(((h >> sh) & 15) <= 15) by (bit_vector);
    }
}

/// What is known of the loaded catalog.
pub struct HashStatus {
    pub loaded_count: usize,
    pub last_updated: Option<String>,
}

impl Hashtable {
    /// The catalog's status: how many hashes it holds, and when its sources last
    /// changed where that is known.
    pub fn status(&self, last_updated: Option<String>) -> (r: HashStatus)
        requires
            self.wf(),
        ensures
            r.loaded_count == self.view().len(),
            r.last_updated == last_updated,
    {
        HashStatus { loaded_count: self.len(), last_updated }
    }
}

/// The listing of one archive: its path, how many chunks it has, and each chunk's
/// resolved path, in the order the hashes were given; or why it could not be read.
pub struct IndexBatch {
    pub path: String,
    pub chunk_count: usize,
    pub paths: Vec<String>,
    pub error: Option<String>,
}

/// What `h` resolves to in a catalog with mappings `m`.
pub open spec fn resolved(m: Map<u64, Seq<char>>, h: u64) -> Seq<char> {
    if m.contains_key(h) {
        m[h]
    } else {
        hex16(h)
    }
}

impl Hashtable {
    /// Lists an archive whose chunk table holds `hashes`: each hash resolved.
    pub fn index_batch(&self, path: &str, hashes: &Vec<u64>) -> (r: IndexBatch)
        requires
            self.wf(),
        ensures
            r.path@ == path@,
            r.chunk_count == hashes@.len(),
            r.paths@.len() == hashes@.len(),
            forall|i: int|
                0 <= i < hashes@.len() ==> (#[trigger] r.paths@[i])@ == resolved(
                    self.view(),
                    hashes@[i],
                ),
            r.error is None,
    {
        let mut paths: Vec<String> = Vec::new();
        let mut i: usize = 0;
        while i < hashes.len()
            invariant
                self.wf(),
                i <= hashes@.len(),
                paths@.len() == i,
                forall|j: int|
                    0 <= j < i ==> (#[trigger] paths@[j])@ == resolved(self.view(), hashes@[j]),
            decreases hashes@.len() - i,
        {
            paths.push(self.resolve(hashes[i]));
            i = i + 1;
        }
        IndexBatch {
            path: string_of(&chars_of(path)),
            chunk_count: hashes.len(),
            paths,
            error: None,
        }
    }
}

/// The persistent index's key of a hash: its eight bytes, most significant first.
pub open spec fn index_key_of(h: u64) -> Seq<u8> {
    Seq::new(8, |i: int| ((h >> (56 - 8 * i) as u64) & 0xff) as u8)
}

/// The persistent index's key of a hash.
pub fn index_key(h: u64) -> (r: Vec<u8>)
    ensures
        r@ == index_key_of(h),
{
    let mut r: Vec<u8> = Vec::new();
    let mut i: u64 = 0;
    while i < 8
        invariant
            i <= 8,
            r@ == Seq::new(i as nat, |k: int| ((h >> (56 - 8 * k) as u64) & 0xff) as u8),
        decreases 8 - i,
    {
        let sh: u64 = 56 - 8 * i;
        r.push(((h >> sh) & 0xff) as u8);
        i = i + 1;
        assert(r@ =~= Seq::new(i as nat, |k: int| ((h >> (56 - 8 * k) as u64) & 0xff) as u8));
    }
    assert(r@ =~= index_key_of(h));
    r
}

/// The hash that an eight-byte index key stands for.
pub open spec fn key_value_of(k: Seq<u8>) -> u64 {
    ((k[0] as u64) << 56) | ((k[1] as u64) << 48) | ((k[2] as u64) << 40) | ((k[3] as u64) << 32)
        | ((k[4] as u64) << 24) | ((k[5] as u64) << 16) | ((k[6] as u64) << 8) | (k[7] as u64)
}

/// Reads a hash back from an index key; `None` unless the key has eight bytes.
pub fn key_value(k: &[u8]) -> (r: Option<u64>)
    ensures
        k@.len() == 8 ==> r == Some(key_value_of(k@)),
        k@.len() != 8 ==> r is None,
{
    if k.len() != 8 {
        return None;
    }
    Some(((k[0] as u64) << 56) | ((k[1] as u64) << 48) | ((k[2] as u64) << 40) | ((k[3] as u64)
        << 32) | ((k[4] as u64) << 24) | ((k[5] as u64) << 16) | ((k[6] as u64) << 8) | (k[7] as u64))
}

/// Index keys read back as the hashes they were made from.
pub proof fn law_index_key_round_trip(h: u64)
    ensures
        key_value_of(index_key_of(h)) == h,
{
    let k = index_key_of(h);
    let b0 = ((h >> 56u64) & 0xff) as u8;
    let b1 = ((h >> 48u64) & 0xff) as u8;
    let b2 = ((h >> 40u64) & 0xff) as u8;
    let b3 = ((h >> 32u64) & 0xff) as u8;
    let b4 = ((h >> 24u64) & 0xff) as u8;
    let b5 = ((h >> 16u64) & 0xff) as u8;
    let b6 = ((h >> 8u64) & 0xff) as u8;
    let b7 = ((h >> 0u64) & 0xff) as u8;
    assert(k[0] == b0 && k[1] == b1 && k[2] == b2 && k[3] == b3);
    assert(k[4] == b4 && k[5] == b5 && k[6] == b6 && k[7] == b7);
    assert(((b0 as u64) << 56) | ((b1 as u64) << 48) | ((b2 as u64) << 40) | ((b3 as u64) << 32)
        | ((b4 as u64) << 24) | ((b5 as u64) << 16) | ((b6 as u64) << 8) | (b7 as u64) == h)
        by (bit_vector)
        requires
            b0 == ((h >> 56u64) & 0xff) as u8,
            b1 == ((h >> 48u64) & 0xff) as u8,
            b2 == ((h >> 40u64) & 0xff) as u8,
            b3 == ((h >> 32u64) & 0xff) as u8,
            b4 == ((h >> 24u64) & 0xff) as u8,
            b5 == ((h >> 16u64) & 0xff) as u8,
            b6 == ((h >> 8u64) & 0xff) as u8,
            b7 == ((h >> 0u64) & 0xff) as u8,
    ;
}

/// Whether the persistent index must be rebuilt: it is missing, or a source
/// manifest is newer than it, or a source exists while the index's data file has
/// no known modification time.
pub open spec fn rebuild_needed(index_exists: bool, db_mtime: Option<u64>, sources: Seq<Option<u64>>) -> bool {
    !index_exists || exists|i: int|
        0 <= i < sources.len() && match (db_mtime, #[trigger] sources[i]) {
            (Some(d), Some(f)) => f > d,
            (None, Some(_)) => true,
            _ => false,
        }
}

/// Decides whether the persistent index is stale; modification times are given
/// for the index's data file and for each source manifest that exists.
pub fn needs_rebuild(index_exists: bool, db_mtime: Option<u64>, sources: &Vec<Option<u64>>) -> (r: bool)
    ensures
        r == rebuild_needed(index_exists, db_mtime, sources@),
{
    if !index_exists {
        return true;
    }
    let mut i: usize = 0;
    while i < sources.len()
        invariant
            i <= sources@.len(),
            forall|j: int|
                0 <= j < i ==> !match (db_mtime, #[trigger] sources@[j]) {
                    (Some(d), Some(f)) => f > d,
                    (None, Some(_)) => true,
                    _ => false,
                },
        decreases sources@.len() - i,
    {
        let newer = match (db_mtime, sources[i]) {
            (Some(d), Some(f)) => f > d,
            (None, Some(_)) => true,
            _ => false,
        };
        if newer {
            return true;
        }
        i = i + 1;
    }
    false
}

impl Hashtable {
    /// Every mapping, hashes strictly ascending: the order in which the persistent
    /// index is written.
    pub fn sorted_entries(&self) -> (r: Vec<(u64, String)>)
        requires
            self.wf(),
        ensures
            r@.len() == self.view().len(),
            forall|i: int, j: int| 0 <= i < j < r@.len() ==> r@[i].0 < r@[j].0,
            forall|i: int|
                0 <= i < r@.len() ==> self.view().contains_key(#[trigger] r@[i].0) && self.view()[r@[i].0]
                    == r@[i].1@,
    {
        proof {
            self.lemma_len();
        }
        let mut r: Vec<(u64, String)> = Vec::new();
        let mut i: usize = 0;
        while i < self.keys.len()
            invariant
                self.wf(),
                i <= self.keys@.len(),
                r@.len() == i,
                forall|j: int| 0 <= j < i ==> (#[trigger] r@[j]).0 == self.keys@[j] && r@[j].1@ == self.entry(j),
            decreases self.keys@.len() - i,
        {
            r.push((self.key_exec(i), string_of(&self.entry_exec(i))));
            i = i + 1;
        }
        assert forall|j: int| 0 <= j < r@.len() implies self.view().contains_key(#[trigger] r@[j].0)
            && self.view()[r@[j].0] == r@[j].1@ by {
            self.lemma_view_at(j);
        }
        r
    }
}

} // verus!
