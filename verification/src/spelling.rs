//! What a path's spelling says is the path: the texts that [`crate::paths`] makes denote the paths
//! that it makes them for.
use vstd::prelude::*;

use crate::collect::{collect, lemma_collect_contains, lemma_collect_parts};
use crate::paths::{DOT, PathV, SLASH, before_piece, blank_piece, body_start, cur_comp, file_name_of, is_absolute, join_slash, joined, joined_text, last_piece, next_slash, parent_of, parent_text, parsed, past_piece, path_bytes, piece_component, relative_text, relative_to, root_comp, skip_blank, skip_comps, split_slash, starts_with, trimmed_end, with_name, with_name_text};

verus! {

/// The components among pieces, a `.` counting only at the very front.
spec fn comps(sp: Seq<Seq<u8>>) -> PathV {
    collect(sp.len() as int, |i: int| piece_component(sp, i))
}

/// A piece as a component, a `.` never counting.
spec fn inner_component(sp: Seq<Seq<u8>>, i: int) -> Option<Seq<u8>> {
    if sp[i].len() == 0 || sp[i] == cur_comp() {
        None
    } else {
        Some(sp[i])
    }
}

/// The components among pieces, a `.` never counting.
spec fn inner(sp: Seq<Seq<u8>>) -> PathV {
    collect(sp.len() as int, |i: int| inner_component(sp, i))
}

/// The components of a text that stands after others.
spec fn tail(b: Seq<u8>) -> PathV {
    inner(split_slash(b))
}

spec fn slashless(c: Seq<u8>) -> bool {
    forall|i: int| 0 <= i < c.len() ==> #[trigger] c[i] != SLASH
}

proof fn lemma_split(b: Seq<u8>)
    ensures
        split_slash(b).len() >= 1,
        forall|i: int| 0 <= i < split_slash(b).len() ==> slashless(#[trigger] split_slash(b)[i]),
        b.len() > 0 ==> (b[0] == SLASH <==> split_slash(b)[0].len() == 0),
        b.len() > 0 && b[0] == SLASH ==> split_slash(b).len() >= 2,
        b.len() == 0 ==> split_slash(b) == seq![Seq::<u8>::empty()],
        slashless(b) ==> split_slash(b) == seq![b],
    decreases b.len(),
{
    if b.len() > 0 {
        let h = b.drop_last();
        lemma_split(h);
        let s = split_slash(h);
        if h.len() > 0 {
            assert(h[0] == b[0]);
        }
        if b.last() != SLASH {
            let last = s.last().push(b.last());
            assert forall|i: int| 0 <= i < last.len() implies #[trigger] last[i] != SLASH by {
                if i < s.last().len() {
                    assert(slashless(s[s.len() - 1]));
                    assert(s.last()[i] != SLASH);
                }
            }
            assert(slashless(last));
        }
        if slashless(b) {
            assert(forall|i: int| 0 <= i < h.len() ==> #[trigger] h[i] == b[i]);
            assert(slashless(h));
            assert(b[b.len() - 1] != SLASH);
            assert(h.push(b.last()) =~= b);
            assert(split_slash(b) =~= seq![b]);
        }
    } else {
        assert(b =~= Seq::<u8>::empty());
    }
}

proof fn lemma_split_joined(u: Seq<u8>, b: Seq<u8>)
    ensures
        split_slash(u.push(SLASH) + b) == split_slash(u) + split_slash(b),
    decreases b.len(),
{
    let w = u.push(SLASH) + b;
    if b.len() == 0 {
        assert(w =~= u.push(SLASH));
        assert(w.drop_last() =~= u);
        assert(split_slash(w) =~= split_slash(u) + split_slash(b));
    } else {
        let h = b.drop_last();
        lemma_split_joined(u, h);
        lemma_split(h);
        assert(w.drop_last() =~= u.push(SLASH) + h);
        assert(w.last() == b.last());
        let s = split_slash(w.drop_last());
        assert(s == split_slash(u) + split_slash(h));
        assert(s.last() == split_slash(h).last());
        assert(split_slash(w) =~= split_slash(u) + split_slash(b));
    }
}

/// The components of a text, told apart by how it begins.
proof fn lemma_parsed(b: Seq<u8>)
    ensures
        parsed(b) == (if b.len() > 0 && b[0] == SLASH {
            seq![root_comp()] + tail(b)
        } else if split_slash(b)[0] == cur_comp() {
            seq![cur_comp()] + tail(b)
        } else {
            tail(b)
        }),
        forall|i: int|
            0 <= i < tail(b).len() ==> #[trigger] tail(b)[i] != cur_comp() && tail(b)[i] != root_comp(),
        b.len() > 0 && b[0] != SLASH ==> parsed(b).len() > 0,
{
    let sp = split_slash(b);
    lemma_split(b);
    let rule = |i: int| piece_component(sp, i);
    let plain = |i: int| inner_component(sp, i);
    let rest = |i: int| inner_component(sp, i + 1);
    lemma_collect_parts(1, sp.len() - 1, rule, rule, rest);
    lemma_collect_parts(1, sp.len() - 1, plain, plain, rest);
    assert(collect(0, rule) =~= Seq::<Seq<u8>>::empty());
    assert(collect(0, plain) =~= Seq::<Seq<u8>>::empty());
    reveal_with_fuel(collect, 2);
    assert(comps(sp) == collect(1, rule) + collect(sp.len() - 1, rest));
    assert(inner(sp) == collect(1, plain) + collect(sp.len() - 1, rest));
    if sp[0] == cur_comp() {
        assert(collect(1, rule) =~= seq![cur_comp()]);
        assert(collect(1, plain) =~= Seq::<Seq<u8>>::empty());
        assert(comps(sp) =~= seq![cur_comp()] + inner(sp));
    } else {
        assert(collect(1, rule) =~= collect(1, plain));
        assert(comps(sp) =~= inner(sp));
    }
    if b.len() > 0 && b[0] == SLASH {
        assert(sp[0].len() == 0);
        assert(parsed(b) =~= seq![root_comp()] + tail(b));
    }
    assert forall|i: int| 0 <= i < tail(b).len() implies #[trigger] tail(b)[i] != cur_comp() && tail(b)[i]
        != root_comp() by {
        let x = tail(b)[i];
        assert(tail(b).contains(x));
        lemma_collect_contains(sp.len() as int, plain, x);
        let k = choose|k: int| 0 <= k < sp.len() && #[trigger] plain(k) == Some(x);
        assert(slashless(sp[k]));
        assert(root_comp()[0] == SLASH);
    }
    if b.len() > 0 && b[0] != SLASH && sp[0] != cur_comp() {
        assert(plain(0) == Some(sp[0]));
        lemma_collect_contains(sp.len() as int, plain, sp[0]);
    }
}

/// What stands after a slash adds its components.
proof fn lemma_after_slash(u: Seq<u8>, b: Seq<u8>)
    ensures
        parsed(u.push(SLASH) + b) == parsed(u.push(SLASH)) + tail(b),
        u.len() > 0 ==> parsed(u.push(SLASH)) == parsed(u),
{
    lemma_split(u);
    lemma_parts_of(u, b);
    lemma_parts_of(u, Seq::empty());
    lemma_split(Seq::<u8>::empty());
    assert(u.push(SLASH) + Seq::<u8>::empty() =~= u.push(SLASH));
    let none = split_slash(Seq::<u8>::empty());
    let plain = |i: int| inner_component(none, i);
    assert(plain(0) is None);
    reveal_with_fuel(collect, 2);
    assert(tail(Seq::<u8>::empty()) =~= Seq::<Seq<u8>>::empty());
    let w = u.push(SLASH) + b;
    assert(w[0] == u.push(SLASH)[0]);
    assert(parsed(w) =~= parsed(u.push(SLASH)) + tail(b));
    if u.len() > 0 {
        assert(u.push(SLASH)[0] == u[0]);
        assert(parsed(u.push(SLASH)) =~= parsed(u));
    }
}

proof fn lemma_parts_of(u: Seq<u8>, b: Seq<u8>)
    ensures
        comps(split_slash(u.push(SLASH) + b)) == comps(split_slash(u)) + tail(b),
{
    let (su, sb) = (split_slash(u), split_slash(b));
    let sp = su + sb;
    lemma_split(u);
    lemma_split_joined(u, b);
    let rule = |i: int| piece_component(sp, i);
    let head = |i: int| piece_component(su, i);
    let rest = |i: int| inner_component(sb, i);
    assert forall|i: int| 0 <= i < sb.len() implies rule(su.len() + i) == #[trigger] rest(i) by {
        assert(sp[su.len() + i] == sb[i]);
    }
    lemma_collect_parts(su.len() as int, sb.len() as int, rule, head, rest);
}

/// A joined text denotes the joined path.
pub proof fn a_joined_text_denotes_the_joined_path(a: Seq<u8>, b: Seq<u8>)
    ensures
        parsed(joined_text(a, b)) == joined(parsed(a), parsed(b)),
{
    lemma_parsed(a);
    lemma_parsed(b);
    if a.len() == 0 {
        assert(a =~= Seq::<u8>::empty());
        lemma_empty();
    } else if b.len() > 0 && b[0] == SLASH {
        assert(parsed(b)[0] == root_comp());
    } else {
        if a.last() == SLASH {
            let u = a.drop_last();
            assert(u.push(SLASH) =~= a);
            lemma_after_slash(u, b);
        } else {
            lemma_after_slash(a, b);
            assert(a.push(SLASH) + b =~= a + seq![SLASH] + b);
        }
        assert(parsed(joined_text(a, b)) == parsed(a) + tail(b));
        if a[0] == SLASH {
            assert(parsed(a)[0] == root_comp());
        }
        assert(parsed(a).len() > 0);
        let p = parsed(b);
        assert(cur_comp()[0] != root_comp()[0]);
        if split_slash(b)[0] == cur_comp() {
            assert(p[0] == cur_comp());
            assert(!is_absolute(p));
            assert(p.subrange(1, p.len() as int) =~= tail(b));
        } else if p.len() > 0 {
            assert(tail(b)[0] != cur_comp() && tail(b)[0] != root_comp());
        }
    }
}

/// Where the last piece of a text begins: after a slash, or where the body begins.
proof fn lemma_last_piece(t: Seq<u8>, from: int, n: int)
    requires
        0 <= from <= n <= t.len(),
    ensures
        from <= last_piece(t, from, n) <= n,
        last_piece(t, from, n) > from ==> t[last_piece(t, from, n) - 1] == SLASH,
        slashless(t.subrange(last_piece(t, from, n), n)),
    decreases n,
{
    if n > from && t[n - 1] != SLASH {
        lemma_last_piece(t, from, n - 1);
        let b = last_piece(t, from, n - 1);
        let (x, y) = (t.subrange(b, n), t.subrange(b, n - 1));
        assert forall|i: int| 0 <= i < x.len() implies #[trigger] x[i] != SLASH by {
            if i < y.len() {
                assert(y[i] != SLASH);
            }
        }
    }
}

/// The component that a piece is, where it is one.
spec fn piece_comps(x: Seq<u8>) -> PathV {
    if x.len() == 0 || x == cur_comp() {
        Seq::empty()
    } else {
        seq![x]
    }
}

proof fn lemma_tail_of_piece(x: Seq<u8>)
    requires
        slashless(x),
    ensures
        tail(x) == piece_comps(x),
{
    lemma_split(x);
    let sp = split_slash(x);
    let plain = |i: int| inner_component(sp, i);
    reveal_with_fuel(collect, 2);
    assert(plain(0) == inner_component(sp, 0));
    assert(tail(x) =~= piece_comps(x));
}

/// The last piece of a text, past its lead.
spec fn piece_of(t: Seq<u8>, n: int) -> Seq<u8> {
    t.subrange(last_piece(t, body_start(t, n), n), n)
}

/// A text's components are those before its last piece and that piece, where it is one.
proof fn lemma_before_piece(t: Seq<u8>, n: int)
    requires
        0 <= n <= t.len(),
        n > body_start(t, n),
    ensures
        0 <= before_piece(t, n) <= n,
        piece_comps(piece_of(t, n)).len() == 0 ==> before_piece(t, n) < n,
        parsed(t.subrange(0, n)) == parsed(t.subrange(0, before_piece(t, n))) + piece_comps(piece_of(t, n)),
{
    let from = body_start(t, n);
    lemma_last_piece(t, from, n);
    let b = last_piece(t, from, n);
    let x = piece_of(t, n);
    lemma_tail_of_piece(x);
    let whole = t.subrange(0, n);
    if b > from {
        let u = t.subrange(0, b - 1);
        lemma_after_slash(u, x);
        assert(u.push(SLASH) + x =~= whole);
        assert(u.len() > 0);
    } else if from == 0 {
        assert(whole =~= x);
        assert(t.subrange(0, 0) =~= Seq::<u8>::empty());
        lemma_parsed(x);
        lemma_split(x);
        assert(x[0] == t[0]);
        lemma_empty();
        assert(parsed(whole) =~= parsed(t.subrange(0, 0)) + piece_comps(x));
    } else {
        if t[0] == DOT {
            assert(t[1] == SLASH);
            lemma_slash_counts(t, from, n, 1);
        }
        lemma_after_slash(Seq::empty(), x);
        assert(Seq::<u8>::empty().push(SLASH) + x =~= whole);
        assert(t.subrange(0, 1) =~= Seq::<u8>::empty().push(SLASH));
    }
}

proof fn lemma_empty()
    ensures
        parsed(Seq::<u8>::empty()) == Seq::<Seq<u8>>::empty(),
{
    let b = Seq::<u8>::empty();
    lemma_split(b);
    let sp = split_slash(b);
    let rule = |i: int| piece_component(sp, i);
    assert(sp =~= seq![Seq::<u8>::empty()]);
    assert(rule(0) is None);
    reveal_with_fuel(collect, 2);
    assert(parsed(b) =~= Seq::<Seq<u8>>::empty());
}

/// A slash past `from` is not part of the last piece.
proof fn lemma_slash_counts(t: Seq<u8>, from: int, n: int, k: int)
    requires
        0 <= from <= k < n <= t.len(),
        t[k] == SLASH,
    ensures
        last_piece(t, from, n) > k,
    decreases n,
{
    if t[n - 1] != SLASH {
        lemma_slash_counts(t, from, n - 1, k);
    }
}

/// Trailing pieces that are no component add nothing.
proof fn lemma_trimmed(t: Seq<u8>, n: int)
    requires
        0 <= n <= t.len(),
    ensures
        0 <= trimmed_end(t, n) <= n,
        parsed(t.subrange(0, trimmed_end(t, n))) == parsed(t.subrange(0, n)),
        trimmed_end(t, n) > body_start(t, trimmed_end(t, n)) ==> piece_comps(piece_of(t, trimmed_end(t, n))).len()
            > 0,
    decreases n,
{
    let from = body_start(t, n);
    if n > from {
        lemma_before_piece(t, n);
        lemma_last_piece(t, from, n);
        let b = last_piece(t, from, n);
        let x = piece_of(t, n);
        if b == n || (b == n - 1 && t[b] == DOT) {
            if b == n - 1 {
                assert(x =~= cur_comp());
            }
            lemma_trimmed(t, before_piece(t, n));
            assert(parsed(t.subrange(0, n)) =~= parsed(t.subrange(0, before_piece(t, n))));
        } else if x == cur_comp() {
            assert(x[0] == t[b]);
        }
    }
}

/// A text that is all lead names no file.
proof fn lemma_lead_has_no_name(t: Seq<u8>, n: int)
    requires
        0 <= n <= t.len(),
        n <= body_start(t, n),
    ensures
        file_name_of(parsed(t.subrange(0, n))) is None,
        parsed(t.subrange(0, n)).len() <= 1,
{
    let b = t.subrange(0, n);
    if n == 0 {
        assert(b =~= Seq::<u8>::empty());
        lemma_empty();
    } else {
        assert(b =~= seq![t[0]]);
        lemma_parsed(b);
        lemma_split(b);
        if t[0] == SLASH {
            assert(b =~= Seq::<u8>::empty().push(SLASH));
            lemma_lead_is_root();
        } else {
            assert(slashless(b));
            assert(b =~= cur_comp());
            lemma_tail_of_piece(b);
            assert(parsed(b) =~= seq![cur_comp()]);
        }
    }
}

/// A directory's text denotes the directory.
pub proof fn a_parent_text_denotes_the_parent(t: Seq<u8>)
    requires
        parent_of(parsed(t)) is Some,
    ensures
        parent_of(parsed(t)) == Some(parsed(parent_text(t))),
{
    let p = parsed(t);
    let len = t.len() as int;
    assert(t.subrange(0, len) =~= t);
    lemma_trimmed(t, len);
    let n = trimmed_end(t, len);
    if n <= body_start(t, n) {
        lemma_lead_has_no_name(t, n);
        lemma_trimmed(t, 0);
        assert(parent_text(t) =~= Seq::<u8>::empty());
        lemma_empty();
        assert(p.drop_last() =~= Seq::<Seq<u8>>::empty());
    } else {
        lemma_before_piece(t, n);
        lemma_trimmed(t, before_piece(t, n));
        assert(p.drop_last() =~= parsed(parent_text(t)));
    }
}

/// A renamed text denotes the renamed path.
pub proof fn a_renamed_text_denotes_the_renamed_path(t: Seq<u8>, name: Seq<u8>)
    ensures
        parsed(with_name_text(parsed(t), t, name)) == with_name(parsed(t), parsed(name)),
{
    let p = parsed(t);
    if file_name_of(p) is Some {
        let len = t.len() as int;
        assert(t.subrange(0, len) =~= t);
        lemma_trimmed(t, len);
        let n = trimmed_end(t, len);
        if n <= body_start(t, n) {
            lemma_lead_has_no_name(t, n);
        }
        lemma_before_piece(t, n);
        lemma_trimmed(t, before_piece(t, n));
        assert(p.drop_last() =~= parsed(parent_text(t)));
        a_joined_text_denotes_the_joined_path(parent_text(t), name);
    } else {
        a_joined_text_denotes_the_joined_path(t, name);
    }
}

/// A path that a text can denote: no component is empty or holds a slash, but for the root at the
/// front, and `.` stands at the front only.
pub open spec fn speakable(p: PathV) -> bool {
    forall|i: int|
        0 <= i < p.len() ==> {
            ||| i == 0 && #[trigger] p[i] == root_comp()
            ||| p[i].len() > 0 && !p[i].contains(SLASH) && (p[i] == cur_comp() ==> i == 0)
        }
}

/// The plain text of a path denotes it.
pub proof fn a_plain_text_denotes_its_path(p: PathV)
    requires
        speakable(p),
    ensures
        parsed(path_bytes(p)) == p,
{
    if is_absolute(p) {
        let rest = p.subrange(1, p.len() as int);
        assert forall|i: int| 0 <= i < rest.len() implies {
            ||| i == 0 && #[trigger] rest[i] == root_comp()
            ||| rest[i].len() > 0 && !rest[i].contains(SLASH) && rest[i] != cur_comp()
        } by {
            assert(rest[i] == p[i + 1]);
        }
        assert(speakable(rest));
        assert(root_comp()[0] == SLASH);
        assert(root_comp().contains(SLASH));
        if rest.len() > 0 {
            assert(rest[0] == p[1]);
        }
        let b = join_slash(rest);
        lemma_plain(rest);
        lemma_parsed(b);
        lemma_after_slash(Seq::empty(), b);
        lemma_lead_is_root();
        assert(Seq::<u8>::empty().push(SLASH) + b =~= seq![SLASH] + b);
        if split_slash(b)[0] == cur_comp() {
            assert(parsed(b)[0] == cur_comp());
        }
        if b.len() > 0 && b[0] == SLASH {
            assert(parsed(b)[0] == root_comp());
        }
        assert(parsed(path_bytes(p)) =~= p);
    } else {
        lemma_plain(p);
    }
}

proof fn lemma_lead_is_root()
    ensures
        parsed(Seq::<u8>::empty().push(SLASH)) == seq![root_comp()],
{
    let b = Seq::<u8>::empty().push(SLASH);
    lemma_parsed(b);
    lemma_split_joined(Seq::empty(), Seq::empty());
    assert(b + Seq::<u8>::empty() =~= b);
    lemma_split(Seq::<u8>::empty());
    let sp = split_slash(b);
    let plain = |i: int| inner_component(sp, i);
    assert(sp[0].len() == 0 && sp[1].len() == 0);
    reveal_with_fuel(collect, 3);
    assert(plain(0) is None && plain(1) is None);
    assert(tail(b) =~= Seq::<Seq<u8>>::empty());
    assert(parsed(b) =~= seq![root_comp()]);
}

proof fn lemma_plain(p: PathV)
    requires
        speakable(p),
        !is_absolute(p),
    ensures
        parsed(join_slash(p)) == p,
        p.len() > 0 ==> join_slash(p).len() > 0,
    decreases p.len(),
{
    if p.len() == 0 {
        assert(join_slash(p) =~= Seq::<u8>::empty());
        lemma_empty();
        assert(p =~= Seq::<Seq<u8>>::empty());
    } else {
        let x = p.last();
        assert(p[p.len() - 1] == x);
        assert(x.len() > 0 && !x.contains(SLASH));
        assert forall|i: int| 0 <= i < x.len() implies #[trigger] x[i] != SLASH by {
            if x[i] == SLASH {
                assert(x.contains(SLASH));
            }
        }
        lemma_tail_of_piece(x);
        if p.len() == 1 {
            lemma_parsed(x);
            lemma_split(x);
            assert(x[0] != SLASH);
            assert(parsed(x) =~= p);
        } else {
            let h = p.drop_last();
            assert forall|i: int| 0 <= i < h.len() implies {
                ||| i == 0 && #[trigger] h[i] == root_comp()
                ||| h[i].len() > 0 && !h[i].contains(SLASH) && (h[i] == cur_comp() ==> i == 0)
            } by {
                assert(h[i] == p[i]);
            }
            lemma_plain(h);
            let u = join_slash(h);
            lemma_after_slash(u, x);
            assert(u.push(SLASH) + x =~= u + seq![SLASH] + x);
            assert(parsed(join_slash(p)) =~= p);
        }
    }
}

/// The next slash ends the piece before it.
proof fn lemma_next_slash(t: Seq<u8>, i: int)
    requires
        0 <= i <= t.len(),
    ensures
        i <= next_slash(t, i) <= t.len(),
        next_slash(t, i) < t.len() ==> t[next_slash(t, i)] == SLASH,
        slashless(t.subrange(i, next_slash(t, i))),
    decreases t.len() - i,
{
    if i < t.len() && t[i] != SLASH {
        lemma_next_slash(t, i + 1);
        let n = next_slash(t, i + 1);
        let (x, y) = (t.subrange(i, n), t.subrange(i + 1, n));
        assert forall|k: int| 0 <= k < x.len() implies #[trigger] x[k] != SLASH by {
            if k > 0 {
                assert(y[k - 1] != SLASH);
            }
        }
    }
}

/// The piece of a text that begins at `i`.
spec fn piece_at(t: Seq<u8>, i: int) -> Seq<u8> {
    t.subrange(i, next_slash(t, i))
}

/// What is left of a text from `i` on.
spec fn from_on(t: Seq<u8>, i: int) -> Seq<u8> {
    t.subrange(i, t.len() as int)
}

/// The components from `i` on are the piece there, where it is one, and those after it.
proof fn lemma_first_piece(t: Seq<u8>, i: int)
    requires
        0 <= i <= t.len(),
    ensures
        i <= past_piece(t, i) <= t.len(),
        i < t.len() ==> past_piece(t, i) > i,
        tail(from_on(t, i)) == piece_comps(piece_at(t, i)) + tail(from_on(t, past_piece(t, i))),
        split_slash(from_on(t, i))[0] == piece_at(t, i),
        blank_piece(t, i) <==> piece_comps(piece_at(t, i)).len() == 0,
{
    lemma_next_slash(t, i);
    let n = next_slash(t, i);
    let x = piece_at(t, i);
    let u = from_on(t, i);
    let rest = from_on(t, past_piece(t, i));
    lemma_split(x);
    lemma_tail_of_piece(x);
    if n < t.len() {
        assert(x.push(SLASH) + rest =~= u);
        lemma_split_joined(x, rest);
        let (sx, sr) = (split_slash(x), split_slash(rest));
        let sp = sx + sr;
        let rule = |k: int| inner_component(sp, k);
        let head = |k: int| inner_component(sx, k);
        let more = |k: int| inner_component(sr, k);
        assert forall|k: int| 0 <= k < sr.len() implies rule(sx.len() + k) == #[trigger] more(k) by {
            assert(sp[sx.len() + k] == sr[k]);
        }
        lemma_collect_parts(sx.len() as int, sr.len() as int, rule, head, more);
        assert(split_slash(u)[0] == x);
    } else {
        assert(u =~= x);
        assert(rest =~= Seq::<u8>::empty());
        lemma_split(rest);
        lemma_tail_of_piece(rest);
        assert(tail(u) =~= piece_comps(x) + tail(rest));
    }
    if x == cur_comp() {
        assert(x[0] == t[i]);
    }
    if n == i + 1 && t[i] == DOT {
        assert(x =~= cur_comp());
    }
}

/// Skipping what is no component leaves the components as they are.
proof fn lemma_skip_blank(t: Seq<u8>, i: int)
    requires
        0 <= i <= t.len(),
    ensures
        i <= skip_blank(t, i) <= t.len(),
        skip_blank(t, i) < t.len() ==> !blank_piece(t, skip_blank(t, i)),
        tail(from_on(t, skip_blank(t, i))) == tail(from_on(t, i)),
    decreases t.len() - i,
{
    lemma_first_piece(t, i);
    if i < t.len() && blank_piece(t, i) {
        lemma_skip_blank(t, past_piece(t, i));
        assert(tail(from_on(t, i)) =~= tail(from_on(t, past_piece(t, i))));
    }
}

/// Skipping components leaves those after them.
proof fn lemma_skip_comps(t: Seq<u8>, i: int, n: int)
    requires
        0 <= i <= t.len(),
        0 <= n <= tail(from_on(t, i)).len(),
    ensures
        0 <= skip_comps(t, i, n) <= t.len(),
        skip_comps(t, i, n) < t.len() ==> !blank_piece(t, skip_comps(t, i, n)),
        tail(from_on(t, skip_comps(t, i, n))) == tail(from_on(t, i)).subrange(
            n,
            tail(from_on(t, i)).len() as int,
        ),
    decreases n,
{
    let all = tail(from_on(t, i));
    lemma_skip_blank(t, i);
    let j = skip_blank(t, i);
    lemma_first_piece(t, j);
    if n > 0 {
        if j >= t.len() {
            let e = from_on(t, j);
            assert(e =~= Seq::<u8>::empty());
            assert(slashless(e));
            lemma_tail_of_piece(e);
        } else {
            let rest = tail(from_on(t, past_piece(t, j)));
            assert(all == piece_comps(piece_at(t, j)) + rest);
            assert(rest =~= all.subrange(1, all.len() as int));
            lemma_skip_comps(t, past_piece(t, j), n - 1);
            assert(rest.subrange(n - 1, rest.len() as int) =~= all.subrange(n, all.len() as int));
        }
    } else {
        assert(all.subrange(0, all.len() as int) =~= all);
    }
}

/// A text that begins with a component, or holds nothing, has no lead.
proof fn lemma_no_lead(u: Seq<u8>)
    requires
        u.len() > 0 ==> !blank_piece(u, 0),
    ensures
        parsed(u) == tail(u),
{
    lemma_parsed(u);
    lemma_first_piece(u, 0);
    assert(from_on(u, 0) =~= u);
    if u.len() > 0 && u[0] == SLASH {
        assert(next_slash(u, 0) == 0);
    }
    if u.len() == 0 {
        lemma_split(u);
        assert(split_slash(u)[0].len() == 0);
        assert(cur_comp().len() == 1);
    }
}

/// A text's components are its lead and those after it.
proof fn lemma_lead(t: Seq<u8>)
    ensures
        ({
            let lead = body_start(t, t.len() as int);
            let p = parsed(t);
            p.len() >= lead && p.subrange(lead, p.len() as int) == tail(from_on(t, lead))
        }),
{
    let lead = body_start(t, t.len() as int);
    let p = parsed(t);
    lemma_parsed(t);
    lemma_first_piece(t, 0);
    assert(from_on(t, 0) =~= t);
    reveal_with_fuel(next_slash, 3);
    if lead == 0 {
        lemma_next_slash(t, 0);
        lemma_no_lead(t);
        assert(p.subrange(0, p.len() as int) =~= p);
    } else {
        assert(blank_piece(t, 0));
        assert(tail(t) =~= tail(from_on(t, past_piece(t, 0))));
        if t[0] != SLASH {
            assert(piece_at(t, 0) =~= cur_comp());
            lemma_first_piece(t, 1);
            if t.len() > 1 {
                assert(next_slash(t, 1) == 1);
                assert(tail(from_on(t, 1)) =~= tail(from_on(t, 2)));
            }
        }
        assert(p.subrange(1, p.len() as int) =~= tail(t));
    }
}

/// A relative text denotes the relative path.
pub proof fn a_relative_text_denotes_the_relative_path(t: Seq<u8>, base: PathV)
    ensures
        parsed(relative_text(parsed(t), t, base)) == relative_to(parsed(t), base),
{
    let p = parsed(t);
    if starts_with(p, base) {
        let n = base.len() as int;
        let lead = body_start(t, t.len() as int);
        let i = if n <= 0 {
            0
        } else {
            skip_comps(t, lead, n - lead)
        };
        if n == 0 {
            assert(from_on(t, 0) =~= t);
            assert(p.subrange(0, p.len() as int) =~= p);
        } else {
            lemma_lead(t);
            lemma_skip_comps(t, lead, n - lead);
            let after = p.subrange(lead, p.len() as int);
            assert(after.subrange(n - lead, after.len() as int) =~= p.subrange(n, p.len() as int));
            let u = from_on(t, i);
            if u.len() > 0 {
                lemma_shifted(t, i);
            }
            lemma_no_lead(u);
        }
        let u = from_on(t, i);
        lemma_trimmed(u, u.len() as int);
        assert(u.subrange(0, u.len() as int) =~= u);
    }
}

/// Whether a piece is a component does not depend on what stands before it.
proof fn lemma_shifted(t: Seq<u8>, i: int)
    requires
        0 <= i < t.len(),
    ensures
        blank_piece(from_on(t, i), 0) == blank_piece(t, i),
{
    let u = from_on(t, i);
    lemma_first_piece(t, i);
    lemma_first_piece(u, 0);
    assert(from_on(u, 0) =~= u);
}

} // verus!
