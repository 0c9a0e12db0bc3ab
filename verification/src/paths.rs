//! File-system paths as the library sees them: a list of byte-string components.
//!
//! A path is absolute when its first component is the root, `/`. The other components are file
//! names, `..`, or a leading `.`. File names are arbitrary bytes, so a name that is not valid
//! UTF-8 passes through unharmed.
//!
//! Two spellings such as `a/b` and `a//b/` are one path. A path read from text still remembers how
//! it was spelled, so that a message shows it, and a link carries it, as it was written.
use vstd::prelude::*;

use crate::collect::collect;

verus! {

/// The mathematical value of a path: its components in order.
pub type PathV = Seq<Seq<u8>>;

/// `/`, which separates components and, as a component, is the root.
pub const SLASH: u8 = 47;

/// `.`
pub const DOT: u8 = 46;

/// The root component.
pub open spec fn root_comp() -> Seq<u8> {
    seq![SLASH]
}

/// The "this directory" component.
pub open spec fn cur_comp() -> Seq<u8> {
    seq![DOT]
}

/// The "parent directory" component.
pub open spec fn up_comp() -> Seq<u8> {
    seq![DOT, DOT]
}

/// A component that is neither the root, `.` nor `..`: a file name.
pub open spec fn is_name(c: Seq<u8>) -> bool {
    c != root_comp() && c != cur_comp() && c != up_comp()
}

pub open spec fn is_absolute(p: PathV) -> bool {
    p.len() > 0 && p[0] == root_comp()
}

/// `p` lies at or below `base`.
pub open spec fn starts_with(p: PathV, base: PathV) -> bool {
    base.len() <= p.len() && p.subrange(0, base.len() as int) == base
}

/// The path without its last component; the root and the empty path have none.
pub open spec fn parent_of(p: PathV) -> Option<PathV> {
    if p.len() == 0 || p.last() == root_comp() {
        None
    } else {
        Some(p.drop_last())
    }
}

/// The last component, where it is a file name.
pub open spec fn file_name_of(p: PathV) -> Option<Seq<u8>> {
    if p.len() > 0 && is_name(p.last()) {
        Some(p.last())
    } else {
        None
    }
}

/// `rel` taken relative to `base`; an absolute `rel` stands for itself.
pub open spec fn joined(base: PathV, rel: PathV) -> PathV {
    if base.len() == 0 || is_absolute(rel) {
        rel
    } else if rel.len() > 0 && rel[0] == cur_comp() {
        base + rel.subrange(1, rel.len() as int)
    } else {
        base + rel
    }
}

/// The pieces of `b` between slashes; there is always one more piece than there are slashes.
pub open spec fn split_slash(b: Seq<u8>) -> Seq<Seq<u8>>
    decreases b.len(),
{
    if b.len() == 0 {
        seq![Seq::empty()]
    } else if b.last() == SLASH {
        split_slash(b.drop_last()).push(Seq::empty())
    } else {
        let s = split_slash(b.drop_last());
        s.drop_last().push(s.last().push(b.last()))
    }
}

/// Whether the `i`-th piece of a path's text is a component: empty pieces are not, and `.` is one
/// only at the very front.
pub open spec fn piece_component(pieces: Seq<Seq<u8>>, i: int) -> Option<Seq<u8>> {
    if pieces[i].len() == 0 || (pieces[i] == cur_comp() && i > 0) {
        None
    } else {
        Some(pieces[i])
    }
}

/// The path a byte string denotes.
pub open spec fn parsed(b: Seq<u8>) -> PathV {
    let pieces = split_slash(b);
    let comps = collect(pieces.len() as int, |i: int| piece_component(pieces, i));
    if b.len() > 0 && b[0] == SLASH {
        seq![root_comp()] + comps
    } else {
        comps
    }
}

/// Components joined by slashes.
pub open spec fn join_slash(p: PathV) -> Seq<u8>
    decreases p.len(),
{
    if p.len() == 0 {
        Seq::empty()
    } else if p.len() == 1 {
        p[0]
    } else {
        join_slash(p.drop_last()) + seq![SLASH] + p.last()
    }
}

/// The byte string that denotes a path.
pub open spec fn path_bytes(p: PathV) -> Seq<u8> {
    if is_absolute(p) {
        seq![SLASH] + join_slash(p.subrange(1, p.len() as int))
    } else {
        join_slash(p)
    }
}

/// The text of `rel` taken relative to the path with the text `base`: `rel` alone where it is
/// absolute or `base` is empty; else the two with one slash between them, unless `base` ends in one.
pub open spec fn joined_text(base: Seq<u8>, rel: Seq<u8>) -> Seq<u8> {
    if base.len() == 0 || (rel.len() > 0 && rel[0] == SLASH) {
        rel
    } else if base.last() == SLASH {
        base + rel
    } else {
        base + seq![SLASH] + rel
    }
}

/// Where the components of a path's text begin that stand after the root or after a leading `.`.
/// The text is the first `n` bytes of `t`.
pub open spec fn body_start(t: Seq<u8>, n: int) -> int {
    if n > 0 && (t[0] == SLASH || (t[0] == DOT && (n == 1 || t[1] == SLASH))) {
        1
    } else {
        0
    }
}

/// Where the last piece of the first `n` bytes of `t` begins: after the last slash past `from`.
pub open spec fn last_piece(t: Seq<u8>, from: int, n: int) -> int
    decreases n,
{
    if n <= from || n <= 0 {
        from
    } else if t[n - 1] == SLASH {
        n
    } else {
        last_piece(t, from, n - 1)
    }
}

/// Where the first `n` bytes of `t` end without their last piece and the slash before it.
pub open spec fn before_piece(t: Seq<u8>, n: int) -> int {
    let from = body_start(t, n);
    let b = last_piece(t, from, n);
    if b > from {
        b - 1
    } else {
        from
    }
}

/// Where the first `n` bytes of `t` end without trailing pieces that are no component.
pub open spec fn trimmed_end(t: Seq<u8>, n: int) -> int
    decreases n,
{
    let from = body_start(t, n);
    let b = last_piece(t, from, n);
    if n <= from || !(b == n || (b == n - 1 && t[b] == DOT)) {
        n
    } else if before_piece(t, n) < n {
        trimmed_end(t, before_piece(t, n))
    } else {
        n
    }
}

/// The text of a path's directory: the path's text up to the end of its last component but one.
/// That of a lone `.` is empty.
pub open spec fn parent_text(t: Seq<u8>) -> Seq<u8> {
    let n = trimmed_end(t, t.len() as int);
    let end = if n <= body_start(t, n) {
        0
    } else {
        before_piece(t, n)
    };
    t.subrange(0, trimmed_end(t, end))
}

/// Where the next slash of `t` stands from `i` on; past its end where there is none.
pub open spec fn next_slash(t: Seq<u8>, i: int) -> int
    decreases t.len() - i,
{
    if i >= t.len() {
        t.len() as int
    } else if t[i] == SLASH {
        i
    } else {
        next_slash(t, i + 1)
    }
}

/// Where the piece that begins at `i` is over, and the slash after it.
pub open spec fn past_piece(t: Seq<u8>, i: int) -> int {
    if next_slash(t, i) < t.len() {
        next_slash(t, i) + 1
    } else {
        t.len() as int
    }
}

/// The piece that begins at `i` is no component: it is empty or `.`.
pub open spec fn blank_piece(t: Seq<u8>, i: int) -> bool {
    next_slash(t, i) == i || (next_slash(t, i) == i + 1 && t[i] == DOT)
}

/// Where the next component begins from `i` on.
pub open spec fn skip_blank(t: Seq<u8>, i: int) -> int
    decreases t.len() - i,
{
    if i >= t.len() || !blank_piece(t, i) || past_piece(t, i) <= i {
        i
    } else {
        skip_blank(t, past_piece(t, i))
    }
}

/// Where the component begins that comes after `n` others from `i` on.
pub open spec fn skip_comps(t: Seq<u8>, i: int, n: int) -> int
    decreases n,
{
    let j = skip_blank(t, i);
    if n <= 0 || j >= t.len() {
        j
    } else {
        skip_comps(t, past_piece(t, j), n - 1)
    }
}

/// The text of what is left of a path after its first `n` components.
pub open spec fn rest_text(t: Seq<u8>, n: int) -> Seq<u8> {
    let lead = body_start(t, t.len() as int);
    let i = if n <= 0 {
        0
    } else {
        skip_comps(t, lead, n - lead)
    };
    let u = t.subrange(i, t.len() as int);
    u.subrange(0, trimmed_end(u, u.len() as int))
}

/// The text of the path `p`, spelled `t`, without its beginning `base`, where it has that.
pub open spec fn relative_text(p: PathV, t: Seq<u8>, base: PathV) -> Seq<u8> {
    if starts_with(p, base) {
        rest_text(t, base.len() as int)
    } else {
        t
    }
}

/// The path `p` with another file name; where it has none, the name is added.
pub open spec fn with_name(p: PathV, name: PathV) -> PathV {
    if file_name_of(p) is Some {
        joined(p.drop_last(), name)
    } else {
        joined(p, name)
    }
}

/// The text of the path `p`, spelled `t`, with another file name.
pub open spec fn with_name_text(p: PathV, t: Seq<u8>, name: Seq<u8>) -> Seq<u8> {
    if file_name_of(p) is Some {
        joined_text(parent_text(t), name)
    } else {
        joined_text(t, name)
    }
}

/// The value of a list of components.
pub open spec fn comps_view(v: Seq<Vec<u8>>) -> PathV {
    Seq::new(v.len(), |i: int| v[i]@)
}

/// A path. Two paths are equal where they have the same components, however they are spelled.
#[derive(Debug)]
pub struct FsPath {
    comps: Vec<Vec<u8>>,
    /// The text the path was read from, where there is one.
    text: Option<Vec<u8>>,
}

impl View for FsPath {
    type V = PathV;

    closed spec fn view(&self) -> PathV {
        comps_view(self.comps@)
    }
}

impl FsPath {
    /// How the path is spelled: the text it was read from, else its components joined by slashes.
    pub closed spec fn spelled(&self) -> Seq<u8> {
        match self.text {
            Some(t) => t@,
            None => path_bytes(self@),
        }
    }
}

/// How a path is spelled, where there is one.
pub open spec fn opt_spelled(p: Option<FsPath>) -> Option<Seq<u8>> {
    match p {
        Some(x) => Some(x.spelled()),
        None => None,
    }
}

impl PartialEq for FsPath {
    fn eq(&self, other: &Self) -> (r: bool) {
        self.same(other)
    }
}

impl vstd::std_specs::cmp::PartialEqSpecImpl for FsPath {
    open spec fn obeys_eq_spec() -> bool {
        true
    }

    open spec fn eq_spec(&self, other: &Self) -> bool {
        self@ == other@
    }
}

impl Eq for FsPath {

}

/// The values of a list of paths.
pub open spec fn paths_view(v: Seq<FsPath>) -> Seq<PathV> {
    Seq::new(v.len(), |i: int| v[i]@)
}

/// A path together with how it is spelled.
pub struct SpelledV {
    pub path: PathV,
    pub text: Seq<u8>,
}

impl FsPath {
    /// The path together with how it is spelled.
    pub open spec fn named(&self) -> SpelledV {
        SpelledV { path: self@, text: self.spelled() }
    }
}

/// A list of paths, each together with how it is spelled.
pub open spec fn named_view(v: Seq<FsPath>) -> Seq<SpelledV> {
    Seq::new(v.len(), |i: int| v[i].named())
}

/// How the paths of a list are spelled.
pub open spec fn spellings(v: Seq<SpelledV>) -> Seq<Seq<u8>> {
    Seq::new(v.len(), |i: int| v[i].text)
}

/// The paths of a list, however they are spelled.
pub open spec fn bare(v: Seq<SpelledV>) -> Seq<PathV> {
    Seq::new(v.len(), |i: int| v[i].path)
}

/// Two byte strings hold the same bytes.
pub fn bytes_same(a: &[u8], b: &[u8]) -> (r: bool)
    ensures
        r == (a@ == b@),
{
    if a.len() != b.len() {
        return false;
    }
    let mut i: usize = 0;
    while i < a.len()
        invariant
            a@.len() == b@.len(),
            0 <= i <= a@.len(),
            forall|k: int| 0 <= k < i ==> a@[k] == b@[k],
        decreases a@.len() - i,
    {
        if a[i] != b[i] {
            return false;
        }
        i = i + 1;
    }
    assert(a@ =~= b@);
    true
}

/// A fresh copy of a byte string.
pub fn copy_bytes(a: &[u8]) -> (r: Vec<u8>)
    ensures
        r@ == a@,
{
    let mut out: Vec<u8> = Vec::new();
    let mut i: usize = 0;
    while i < a.len()
        invariant
            0 <= i <= a@.len(),
            out@ == a@.subrange(0, i as int),
        decreases a@.len() - i,
    {
        out.push(a[i]);
        i = i + 1;
        assert(out@ =~= a@.subrange(0, i as int));
    }
    assert(out@ =~= a@);
    out
}

/// The text of `rel` taken relative to the path with the text `base`.
fn join_text(base: &[u8], rel: &[u8]) -> (r: Vec<u8>)
    ensures
        r@ == joined_text(base@, rel@),
{
    if base.len() == 0 || (rel.len() > 0 && rel[0] == SLASH) {
        return copy_bytes(rel);
    }
    let mut out = copy_bytes(base);
    if base[base.len() - 1] != SLASH {
        out.push(SLASH);
    }
    let mut tail = copy_bytes(rel);
    out.append(&mut tail);
    out
}

fn piece_at(t: &[u8], n: usize) -> (r: (usize, usize))
    requires
        n <= t@.len(),
    ensures
        r.0 == body_start(t@, n as int),
        r.1 == last_piece(t@, r.0 as int, n as int),
        r.1 <= n || r.1 <= r.0,
        r.0 <= r.1,
{
    let from: usize = if n > 0 && (t[0] == SLASH || (t[0] == DOT && (n == 1 || t[1] == SLASH))) {
        1
    } else {
        0
    };
    let mut b: usize = n;
    while b > from && t[b - 1] != SLASH
        invariant
            b <= n <= t@.len(),
            from <= n,
            last_piece(t@, from as int, n as int) == last_piece(t@, from as int, b as int),
        decreases b,
    {
        b = b - 1;
    }
    if b < from {
        b = from;
    }
    (from, b)
}

fn cut_piece(t: &[u8], n: usize) -> (r: usize)
    requires
        n <= t@.len(),
    ensures
        r == before_piece(t@, n as int),
        r <= n,
{
    let (from, b) = piece_at(t, n);
    if b > from {
        b - 1
    } else {
        from
    }
}

fn trim_end(t: &[u8], n: usize) -> (r: usize)
    requires
        n <= t@.len(),
    ensures
        r == trimmed_end(t@, n as int),
        r <= n,
    decreases n,
{
    let (from, b) = piece_at(t, n);
    if n <= from || !(b == n || (b == n - 1 && t[b] == DOT)) {
        return n;
    }
    let k: usize = cut_piece(t, n);
    if k < n {
        trim_end(t, k)
    } else {
        n
    }
}

/// The text of a path's directory.
fn dir_text(t: &[u8]) -> (r: Vec<u8>)
    ensures
        r@ == parent_text(t@),
{
    let n: usize = trim_end(t, t.len());
    let (from, _) = piece_at(t, n);
    let end: usize = if n <= from {
        0
    } else {
        cut_piece(t, n)
    };
    let k: usize = trim_end(t, end);
    let mut out = copy_bytes(t);
    out.truncate(k);
    out
}

fn find_slash(t: &[u8], i: usize) -> (k: usize)
    requires
        i <= t@.len(),
    ensures
        k == next_slash(t@, i as int),
        i <= k <= t@.len(),
{
    let mut k: usize = i;
    while k < t.len() && t[k] != SLASH
        invariant
            i <= k <= t@.len(),
            next_slash(t@, i as int) == next_slash(t@, k as int),
        decreases t@.len() - k,
    {
        k = k + 1;
    }
    k
}

fn to_component(t: &[u8], i: usize) -> (j: usize)
    requires
        i <= t@.len(),
    ensures
        j == skip_blank(t@, i as int),
        i <= j <= t@.len(),
    decreases t@.len() - i,
{
    if i >= t.len() {
        return i;
    }
    let k: usize = find_slash(t, i);
    if k == i || (k == i + 1 && t[i] == DOT) {
        if k < t.len() {
            to_component(t, k + 1)
        } else {
            to_component(t, k)
        }
    } else {
        i
    }
}

fn after_components(t: &[u8], i: usize, n: usize) -> (j: usize)
    requires
        i <= t@.len(),
    ensures
        j == skip_comps(t@, i as int, n as int),
        j <= t@.len(),
    decreases n,
{
    let j: usize = to_component(t, i);
    if n == 0 || j >= t.len() {
        return j;
    }
    let k: usize = find_slash(t, j);
    if k < t.len() {
        after_components(t, k + 1, n - 1)
    } else {
        after_components(t, k, n - 1)
    }
}

/// The text of what is left of a path after its first `n` components.
fn text_after(t: &[u8], n: usize) -> (r: Vec<u8>)
    ensures
        r@ == rest_text(t@, n as int),
{
    let (lead, _): (usize, usize) = piece_at(t, t.len());
    let i: usize = if n == 0 {
        0
    } else if lead > n {
        after_components(t, lead, 0)
    } else {
        after_components(t, lead, n - lead)
    };
    let mut u: Vec<u8> = Vec::new();
    let mut k: usize = i;
    while k < t.len()
        invariant
            i <= k <= t@.len(),
            u@ == t@.subrange(i as int, k as int),
        decreases t@.len() - k,
    {
        u.push(t[k]);
        k = k + 1;
        assert(u@ =~= t@.subrange(i as int, k as int));
    }
    let end: usize = trim_end(u.as_slice(), u.len());
    u.truncate(end);
    u
}

fn is_one(c: &Vec<u8>, b: u8) -> (r: bool)
    ensures
        r == (c@ == seq![b]),
{
    let r = c.len() == 1 && c[0] == b;
    proof {
        if r {
            assert(c@ =~= seq![b]);
        }
    }
    r
}

fn is_up(c: &Vec<u8>) -> (r: bool)
    ensures
        r == (c@ == up_comp()),
{
    let r = c.len() == 2 && c[0] == DOT && c[1] == DOT;
    proof {
        if r {
            assert(c@ =~= up_comp());
        }
    }
    r
}

impl Clone for FsPath {
    fn clone(&self) -> (r: Self)
        ensures
            r@ == self@,
            r.spelled() == self.spelled(),
    {
        let mut comps: Vec<Vec<u8>> = Vec::new();
        let mut i: usize = 0;
        while i < self.comps.len()
            invariant
                0 <= i <= self.comps@.len(),
                comps_view(comps@) == self@.subrange(0, i as int),
            decreases self.comps@.len() - i,
        {
            let ghost before = comps_view(comps@);
            comps.push(copy_bytes(self.comps[i].as_slice()));
            assert(comps_view(comps@) =~= before.push(self@[i as int]));
            i = i + 1;
            assert(comps_view(comps@) =~= self@.subrange(0, i as int));
        }
        assert(comps_view(comps@) =~= self@);
        let text = match &self.text {
            Some(t) => Some(copy_bytes(t.as_slice())),
            None => None,
        };
        FsPath { comps, text }
    }
}

impl FsPath {
    /// The empty path: the directory one stands in.
    pub fn empty() -> (r: FsPath)
        ensures
            r@ == Seq::<Seq<u8>>::empty(),
            r.spelled() == path_bytes(r@),
    {
        let comps: Vec<Vec<u8>> = Vec::new();
        assert(comps_view(comps@) =~= Seq::<Seq<u8>>::empty());
        FsPath { comps, text: None }
    }

    /// How many components there are.
    pub fn depth(&self) -> (n: usize)
        ensures
            n == self@.len(),
    {
        self.comps.len()
    }

    /// The `i`-th component.
    pub fn component(&self, i: usize) -> (c: &Vec<u8>)
        requires
            i < self@.len(),
        ensures
            c@ == self@[i as int],
    {
        &self.comps[i]
    }

    /// Appends one component; the spelling is the plain one.
    pub fn push(&mut self, c: Vec<u8>)
        ensures
            final(self)@ == old(self)@.push(c@),
            final(self).spelled() == path_bytes(final(self)@),
    {
        let ghost before = self.comps@;
        self.comps.push(c);
        self.text = None;
        assert(comps_view(self.comps@) =~= comps_view(before).push(c@));
    }

    /// Same components in the same order.
    pub fn same(&self, other: &FsPath) -> (r: bool)
        ensures
            r == (self@ == other@),
    {
        if self.comps.len() != other.comps.len() {
            assert(self@.len() != other@.len());
            return false;
        }
        let mut i: usize = 0;
        while i < self.comps.len()
            invariant
                self.comps@.len() == other.comps@.len(),
                0 <= i <= self.comps@.len(),
                forall|k: int| 0 <= k < i ==> self@[k] == other@[k],
            decreases self.comps@.len() - i,
        {
            if !bytes_same(self.comps[i].as_slice(), other.comps[i].as_slice()) {
                assert(self@[i as int] != other@[i as int]);
                return false;
            }
            i = i + 1;
        }
        assert(self@ =~= other@);
        true
    }

    /// Whether the path starts at the root.
    pub fn is_absolute(&self) -> (r: bool)
        ensures
            r == is_absolute(self@),
    {
        self.comps.len() > 0 && is_one(&self.comps[0], SLASH)
    }

    /// Whether the path lies at or below `base`.
    pub fn starts_with(&self, base: &FsPath) -> (r: bool)
        ensures
            r == starts_with(self@, base@),
    {
        if base.comps.len() > self.comps.len() {
            return false;
        }
        let mut i: usize = 0;
        while i < base.comps.len()
            invariant
                base.comps@.len() <= self.comps@.len(),
                0 <= i <= base.comps@.len(),
                forall|k: int| 0 <= k < i ==> self@[k] == base@[k],
            decreases base.comps@.len() - i,
        {
            if !bytes_same(self.comps[i].as_slice(), base.comps[i].as_slice()) {
                assert(self@.subrange(0, base@.len() as int)[i as int] != base@[i as int]);
                return false;
            }
            i = i + 1;
        }
        assert(self@.subrange(0, base@.len() as int) =~= base@);
        true
    }

    /// The components `from..to` as a path of their own.
    pub fn slice(&self, from: usize, to: usize) -> (r: FsPath)
        requires
            from <= to <= self@.len(),
        ensures
            r@ == self@.subrange(from as int, to as int),
            r.spelled() == path_bytes(r@),
    {
        let mut comps: Vec<Vec<u8>> = Vec::new();
        let mut i: usize = from;
        while i < to
            invariant
                from <= i <= to <= self.comps@.len(),
                comps_view(comps@) == self@.subrange(from as int, i as int),
            decreases to - i,
        {
            let ghost before = comps_view(comps@);
            comps.push(copy_bytes(self.comps[i].as_slice()));
            assert(comps_view(comps@) =~= before.push(self@[i as int]));
            i = i + 1;
            assert(comps_view(comps@) =~= self@.subrange(from as int, i as int));
        }
        FsPath { comps, text: None }
    }

    /// The path without its last component.
    pub fn parent(&self) -> (r: Option<FsPath>)
        ensures
            r is Some <==> parent_of(self@) is Some,
            r matches Some(p) ==> parent_of(self@) == Some(p@),
            r matches Some(p) ==> p.spelled() == parent_text(self.spelled()),
    {
        let n: usize = self.comps.len();
        if n == 0 || is_one(&self.comps[n - 1], SLASH) {
            None
        } else {
            let mut p = self.slice(0, n - 1);
            assert(p@ =~= self@.drop_last());
            p.text = Some(dir_text(self.spelling().as_slice()));
            Some(p)
        }
    }

    /// The last component, where it is a file name.
    pub fn file_name(&self) -> (r: Option<Vec<u8>>)
        ensures
            r is Some <==> file_name_of(self@) is Some,
            r matches Some(c) ==> file_name_of(self@) == Some(c@),
    {
        let n: usize = self.comps.len();
        if n == 0 {
            return None;
        }
        let c = &self.comps[n - 1];
        if is_one(c, SLASH) || is_one(c, DOT) || is_up(c) {
            None
        } else {
            Some(copy_bytes(c.as_slice()))
        }
    }

    /// `rel` taken relative to this path.
    pub fn join(&self, rel: &FsPath) -> (r: FsPath)
        ensures
            r@ == joined(self@, rel@),
            r.spelled() == joined_text(self.spelled(), rel.spelled()),
    {
        let text = join_text(self.spelling().as_slice(), rel.spelling().as_slice());
        let mut out = self.joined_comps(rel);
        out.text = Some(text);
        out
    }

    fn joined_comps(&self, rel: &FsPath) -> (r: FsPath)
        ensures
            r@ == joined(self@, rel@),
    {
        if self.comps.len() == 0 || rel.is_absolute() {
            return rel.clone();
        }
        let mut out = self.clone();
        let mut i: usize = 0;
        if rel.comps.len() > 0 && is_one(&rel.comps[0], DOT) {
            i = 1;
        }
        let ghost start = i as int;
        while i < rel.comps.len()
            invariant
                0 <= start <= i <= rel.comps@.len(),
                out@ == self@ + rel@.subrange(start, i as int),
            decreases rel.comps@.len() - i,
        {
            out.push(copy_bytes(rel.comps[i].as_slice()));
            i = i + 1;
            assert(out@ =~= self@ + rel@.subrange(start, i as int));
        }
        assert(rel@.subrange(0, rel@.len() as int) =~= rel@);
        out
    }

    /// This path with another file name; where it has none, the name is added.
    pub fn renamed(&self, name: &FsPath) -> (r: FsPath)
        ensures
            r@ == with_name(self@, name@),
            r.spelled() == with_name_text(self@, self.spelled(), name.spelled()),
    {
        if self.file_name().is_some() {
            let mut dir = self.slice(0, self.comps.len() - 1);
            assert(dir@ =~= self@.drop_last());
            dir.text = Some(dir_text(self.spelling().as_slice()));
            dir.join(name)
        } else {
            self.join(name)
        }
    }

    /// The same path, spelled plainly.
    pub fn plain(&self) -> (r: FsPath)
        ensures
            r@ == self@,
            r.spelled() == path_bytes(self@),
    {
        let r = self.slice(0, self.comps.len());
        assert(r@ =~= self@);
        r
    }

    /// The path that a byte string denotes, spelled as it is there.
    pub fn parse(b: &[u8]) -> (r: FsPath)
        ensures
            r@ == parsed(b@),
            r.spelled() == b@,
    {
        let mut pieces: Vec<Vec<u8>> = Vec::new();
        let mut cur: Vec<u8> = Vec::new();
        let mut i: usize = 0;
        assert(comps_view(pieces@).push(cur@) =~= split_slash(b@.subrange(0, 0)));
        while i < b.len()
            invariant
                0 <= i <= b@.len(),
                comps_view(pieces@).push(cur@) == split_slash(b@.subrange(0, i as int)),
            decreases b@.len() - i,
        {
            let ghost head = b@.subrange(0, i as int);
            let ghost next = b@.subrange(0, i + 1);
            assert(next.drop_last() =~= head);
            let ghost before = comps_view(pieces@);
            let ghost word = cur@;
            assert(before.push(word).drop_last() =~= before);
            if b[i] == SLASH {
                pieces.push(cur);
                cur = Vec::new();
                assert(comps_view(pieces@) =~= before.push(word));
            } else {
                cur.push(b[i]);
                assert(comps_view(pieces@) =~= before);
            }
            i = i + 1;
            assert(comps_view(pieces@).push(cur@) =~= split_slash(next));
        }
        assert(b@.subrange(0, b@.len() as int) =~= b@);
        let ghost last = cur@;
        let ghost before = comps_view(pieces@);
        pieces.push(cur);
        let ghost all = split_slash(b@);
        assert(comps_view(pieces@) =~= before.push(last));
        let ghost rule = |i: int| piece_component(all, i);
        let mut out = FsPath::empty();
        let abs = b.len() > 0 && b[0] == SLASH;
        let ghost lead: PathV = if abs {
            seq![root_comp()]
        } else {
            Seq::empty()
        };
        if abs {
            let mut root: Vec<u8> = Vec::new();
            root.push(SLASH);
            assert(root@ =~= root_comp());
            out.push(root);
        }
        assert(out@ =~= lead + collect(0, rule));
        let mut j: usize = 0;
        while j < pieces.len()
            invariant
                0 <= j <= pieces@.len(),
                comps_view(pieces@) == all,
                rule == (|i: int| piece_component(all, i)),
                out@ == lead + collect(j as int, rule),
            decreases pieces@.len() - j,
        {
            assert(all[j as int] == pieces@[j as int]@);
            let dot = is_one(&pieces[j], DOT);
            if pieces[j].len() == 0 || (dot && j > 0) {
                assert(rule(j as int) is None);
            } else {
                assert(rule(j as int) == Some(all[j as int]));
                out.push(copy_bytes(pieces[j].as_slice()));
            }
            j = j + 1;
            assert(out@ =~= lead + collect(j as int, rule));
        }
        assert(out@ =~= parsed(b@));
        out.text = Some(copy_bytes(b));
        out
    }

    /// How the path is spelled.
    pub fn spelling(&self) -> (r: Vec<u8>)
        ensures
            r@ == self.spelled(),
    {
        match &self.text {
            Some(t) => copy_bytes(t.as_slice()),
            None => self.to_bytes(),
        }
    }

    /// The plain byte string that denotes the path: one slash between components.
    pub fn to_bytes(&self) -> (r: Vec<u8>)
        ensures
            r@ == path_bytes(self@),
    {
        let mut out: Vec<u8> = Vec::new();
        let n: usize = self.comps.len();
        let abs = self.is_absolute();
        let start: usize = if abs { 1 } else { 0 };
        if abs {
            out.push(SLASH);
        }
        let ghost lead: Seq<u8> = if abs {
            seq![SLASH]
        } else {
            Seq::empty()
        };
        let mut i: usize = start;
        assert(out@ =~= lead + join_slash(self@.subrange(start as int, i as int)));
        while i < n
            invariant
                start <= i <= n,
                n == self.comps@.len(),
                out@ == lead + join_slash(self@.subrange(start as int, i as int)),
            decreases n - i,
        {
            let ghost head = self@.subrange(start as int, i as int);
            let ghost next = self@.subrange(start as int, i + 1);
            assert(next.drop_last() =~= head);
            assert(next.last() == self.comps@[i as int]@);
            if i > start {
                out.push(SLASH);
            }
            let mut k: usize = 0;
            let ghost base = out@;
            while k < self.comps[i].len()
                invariant
                    i < n,
                    n == self.comps@.len(),
                    0 <= k <= self.comps@[i as int]@.len(),
                    out@ == base + self.comps@[i as int]@.subrange(0, k as int),
                decreases self.comps@[i as int]@.len() - k,
            {
                out.push(self.comps[i][k]);
                k = k + 1;
                assert(out@ =~= base + self.comps@[i as int]@.subrange(0, k as int));
            }
            assert(out@ =~= base + next.last());
            i = i + 1;
            assert(out@ =~= lead + join_slash(next));
        }
        assert(self@.subrange(0, n as int) =~= self@);
        out
    }
}

pub proof fn lemma_paths_push(v: Seq<FsPath>, x: FsPath)
    ensures
        paths_view(v.push(x)) == paths_view(v).push(x@),
        named_view(v.push(x)) == named_view(v).push(x.named()),
{
    assert(paths_view(v.push(x)) =~= paths_view(v).push(x@));
    assert(named_view(v.push(x)) =~= named_view(v).push(x.named()));
}

pub proof fn lemma_paths_add(a: Seq<FsPath>, b: Seq<FsPath>)
    ensures
        paths_view(a + b) == paths_view(a) + paths_view(b),
        named_view(a + b) == named_view(a) + named_view(b),
{
    assert(paths_view(a + b) =~= paths_view(a) + paths_view(b));
    assert(named_view(a + b) =~= named_view(a) + named_view(b));
}

/// Appends a path to a list.
pub fn add_path(v: &mut Vec<FsPath>, p: FsPath)
    ensures
        paths_view(final(v)@) == paths_view(old(v)@).push(p@),
        named_view(final(v)@) == named_view(old(v)@).push(p.named()),
{
    proof {
        lemma_paths_push(v@, p);
    }
    v.push(p);
}

/// `p` without its beginning `base`, where it has that; else `p` itself.
pub open spec fn relative_to(p: PathV, base: PathV) -> PathV {
    if starts_with(p, base) {
        p.subrange(base.len() as int, p.len() as int)
    } else {
        p
    }
}

impl FsPath {
    /// The path without its beginning `base`, where it has that; else the path itself.
    pub fn relative_to(&self, base: &FsPath) -> (r: FsPath)
        ensures
            r@ == relative_to(self@, base@),
            r.spelled() == relative_text(self@, self.spelled(), base@),
    {
        if self.starts_with(base) {
            let mut rest = self.slice(base.depth(), self.depth());
            rest.text = Some(text_after(self.spelling().as_slice(), base.depth()));
            rest
        } else {
            self.clone()
        }
    }
}

} // verus!
