//! Unix path syntax: the pieces between '/' separators, file names, and
//! when two paths name the same components.
use vstd::prelude::*;
use vstd::string::*;

verus! {

/// The run of characters other than `sep` at the end of `p`.
pub open spec fn spec_trailing_run(p: Seq<char>, sep: char) -> Seq<char>
    decreases p.len(),
{
    if p.len() == 0 || p.last() == sep {
        Seq::empty()
    } else {
        spec_trailing_run(p.drop_last(), sep).push(p.last())
    }
}

/// The characters of `s`.
pub fn chars_of(s: &str) -> (chars: Vec<char>)
    ensures
        chars@ == s@,
{
    let n = s.unicode_len();
    let mut chars: Vec<char> = Vec::new();
    let mut i: usize = 0;
    while i < n
        invariant
            n == s@.len(),
            i <= n,
            chars@ == s@.subrange(0, i as int),
        decreases n - i,
    {
        let c = s.get_char(i);
        chars.push(c);
        assert(s@.subrange(0, i + 1) =~= s@.subrange(0, i as int).push(c));
        i = i + 1;
    }
    assert(s@.subrange(0, n as int) =~= s@);
    chars
}

/// Where the run of characters other than `sep` that ends at `end` begins.
pub fn trailing_run_start(chars: &[char], end: usize, sep: char) -> (start: usize)
    requires
        end <= chars@.len(),
    ensures
        start <= end,
        chars@.subrange(start as int, end as int) == spec_trailing_run(
            chars@.subrange(0, end as int),
            sep,
        ),
{
    let mut start = end;
    while start > 0 && chars[start - 1] != sep
        invariant
            start <= end <= chars@.len(),
            spec_trailing_run(chars@.subrange(0, end as int), sep) == spec_trailing_run(
                chars@.subrange(0, start as int),
                sep,
            ) + chars@.subrange(start as int, end as int),
        decreases start,
    {
        proof {
            let q = chars@.subrange(0, start as int);
            let c = chars@[start - 1];
            assert(q.drop_last() =~= chars@.subrange(0, start - 1));
            assert(q.last() == c);
            assert(chars@.subrange(start - 1, end as int) =~= seq![c] + chars@.subrange(
                start as int,
                end as int,
            ));
            assert(spec_trailing_run(q, sep) == spec_trailing_run(q.drop_last(), sep).push(c));
            assert(spec_trailing_run(q.drop_last(), sep).push(c) + chars@.subrange(
                start as int,
                end as int,
            ) =~= spec_trailing_run(q.drop_last(), sep) + (seq![c] + chars@.subrange(
                start as int,
                end as int,
            )));
        }
        start = start - 1;
    }
    proof {
        let q = chars@.subrange(0, start as int);
        assert(spec_trailing_run(q, sep) =~= Seq::<char>::empty());
        assert(Seq::<char>::empty() + chars@.subrange(start as int, end as int) =~= chars@.subrange(
            start as int,
            end as int,
        ));
    }
    start
}

/// The pieces of the path `p` between '/' separators that are neither
/// empty nor ".", from the last to the first.
pub open spec fn spec_pieces_rev(p: Seq<char>) -> Seq<Seq<char>>
    decreases p.len(),
{
    let piece = spec_trailing_run(p, '/');
    let earlier = if piece.len() >= p.len() {
        Seq::empty()
    } else {
        spec_pieces_rev(p.subrange(0, p.len() - piece.len() - 1))
    };
    if piece.len() == 0 || piece == seq!['.'] {
        earlier
    } else {
        seq![piece] + earlier
    }
}

/// Whether the path `p` starts at the root.
pub open spec fn spec_rooted(p: Seq<char>) -> bool {
    p.len() > 0 && p[0] == '/'
}

/// Whether the relative path `p` starts with the current directory ".".
pub open spec fn spec_starts_at_current(p: Seq<char>) -> bool {
    &&& !spec_rooted(p)
    &&& p.len() > 0
    &&& p[0] == '.'
    &&& (p.len() == 1 || p[1] == '/')
}

/// Whether the paths `a` and `b` have the same components: both or neither
/// start at the root, both or neither start with ".", and the same pieces
/// follow, so that repeated separators, "." pieces after the first and a
/// trailing separator make no difference.
pub open spec fn spec_same_path(a: Seq<char>, b: Seq<char>) -> bool {
    &&& spec_rooted(a) == spec_rooted(b)
    &&& spec_starts_at_current(a) == spec_starts_at_current(b)
    &&& spec_pieces_rev(a) == spec_pieces_rev(b)
}

fn pieces_rev(chars: &Vec<char>) -> (pieces: Vec<Vec<char>>)
    ensures
        pieces@.map_values(|v: Vec<char>| v@) == spec_pieces_rev(chars@),
{
    let mut pieces: Vec<Vec<char>> = Vec::new();
    let mut end: usize = chars.len();
    assert(chars@.subrange(0, end as int) =~= chars@);
    loop
        invariant
            end <= chars@.len(),
            spec_pieces_rev(chars@) == pieces@.map_values(|v: Vec<char>| v@) + spec_pieces_rev(
                chars@.subrange(0, end as int),
            ),
        decreases end,
    {
        let start = trailing_run_start(chars.as_slice(), end, '/');
        let ghost p = chars@.subrange(0, end as int);
        let ghost piece = chars@.subrange(start as int, end as int);
        let ghost before = pieces@.map_values(|v: Vec<char>| v@);
        let len = end - start;
        let single_dot = len == 1 && chars[start] == '.';
        proof {
            if len == 1 && chars@[start as int] == '.' {
                assert(piece =~= seq!['.']);
            }
            if piece == seq!['.'] {
                assert(piece[0] == '.');
            }
        }
        let ghost earlier = if piece.len() >= p.len() {
            Seq::<Seq<char>>::empty()
        } else {
            spec_pieces_rev(p.subrange(0, p.len() - piece.len() - 1))
        };
        if len > 0 && !single_dot {
            let slice = vstd::slice::slice_subrange(chars.as_slice(), start, end);
            let piece_vec = vstd::slice::slice_to_vec(slice);
            pieces.push(piece_vec);
            proof {
                assert(pieces@.map_values(|v: Vec<char>| v@) =~= before.push(piece));
                assert(before.push(piece) + earlier =~= before + (seq![piece] + earlier));
            }
        } else {
            proof {
                assert(pieces@.map_values(|v: Vec<char>| v@) =~= before);
            }
        }
        if start == 0 {
            proof {
                assert(earlier =~= Seq::<Seq<char>>::empty());
                assert(pieces@.map_values(|v: Vec<char>| v@) + earlier =~= pieces@.map_values(
                    |v: Vec<char>| v@,
                ));
            }
            return pieces;
        }
        proof {
            assert(p.subrange(0, p.len() - piece.len() - 1) =~= chars@.subrange(0, start - 1));
        }
        end = start - 1;
    }
}

fn same_chars(a: &Vec<char>, b: &Vec<char>) -> (same: bool)
    ensures
        same == (a@ == b@),
{
    if a.len() != b.len() {
        return false;
    }
    let mut i: usize = 0;
    while i < a.len()
        invariant
            a@.len() == b@.len(),
            i <= a@.len(),
            forall|k: int| 0 <= k < i ==> a@[k] == b@[k],
        decreases a@.len() - i,
    {
        if a[i] != b[i] {
            return false;
        }
        i = i + 1;
    }
    assert(a@ =~= b@);
    true
}

fn starts_at_current(chars: &Vec<char>) -> (current: bool)
    ensures
        current == spec_starts_at_current(chars@),
{
    chars.len() > 0 && chars[0] == '.' && (chars.len() == 1 || chars[1] == '/')
}

/// Whether the paths `a` and `b` have the same components.
pub fn same_path(a: &str, b: &str) -> (same: bool)
    ensures
        same == spec_same_path(a@, b@),
{
    let ca = chars_of(a);
    let cb = chars_of(b);
    let rooted_a = ca.len() > 0 && ca[0] == '/';
    let rooted_b = cb.len() > 0 && cb[0] == '/';
    if rooted_a != rooted_b {
        return false;
    }
    if (!rooted_a && starts_at_current(&ca)) != (!rooted_b && starts_at_current(&cb)) {
        return false;
    }
    let pa = pieces_rev(&ca);
    let pb = pieces_rev(&cb);
    let ghost va = pa@.map_values(|v: Vec<char>| v@);
    let ghost vb = pb@.map_values(|v: Vec<char>| v@);
    if pa.len() != pb.len() {
        assert(va.len() != vb.len());
        return false;
    }
    let mut i: usize = 0;
    while i < pa.len()
        invariant
            pa@.len() == pb@.len(),
            va == pa@.map_values(|v: Vec<char>| v@),
            vb == pb@.map_values(|v: Vec<char>| v@),
            va == spec_pieces_rev(a@),
            vb == spec_pieces_rev(b@),
            i <= pa@.len(),
            forall|k: int| 0 <= k < i ==> va[k] == vb[k],
        decreases pa@.len() - i,
    {
        if !same_chars(&pa[i], &pb[i]) {
            assert(va[i as int] != vb[i as int]);
            assert(va != vb);
            assert(spec_pieces_rev(a@) != spec_pieces_rev(b@));
            return false;
        }
        i = i + 1;
    }
    assert(va =~= vb);
    true
}

proof fn lemma_trailing_run_after_sep(p: Seq<char>, x: Seq<char>)
    requires
        forall|i: int| 0 <= i < x.len() ==> x[i] != '/',
    ensures
        spec_trailing_run(p + seq!['/'] + x, '/') == x,
    decreases x.len(),
{
    let s = p + seq!['/'] + x;
    if x.len() == 0 {
        assert(s.last() == '/');
    } else {
        let rest = x.drop_last();
        lemma_trailing_run_after_sep(p, rest);
        assert(s.drop_last() =~= p + seq!['/'] + rest);
        assert(s.last() == x.last());
        assert(rest.push(x.last()) =~= x);
    }
}

/// The pieces of `p` followed by a separator and the name `x` are `x` and
/// then the pieces of `p`, from the last.
proof fn lemma_pieces_rev_child(p: Seq<char>, x: Seq<char>)
    requires
        x.len() > 0,
        x != seq!['.'],
        forall|i: int| 0 <= i < x.len() ==> x[i] != '/',
    ensures
        spec_pieces_rev(p + seq!['/'] + x) == seq![x] + spec_pieces_rev(p),
{
    let s = p + seq!['/'] + x;
    lemma_trailing_run_after_sep(p, x);
    assert(s.subrange(0, s.len() - x.len() - 1) =~= p);
}

/// A child path: `p`, a separator and the name `x`.
pub open spec fn spec_child(p: Seq<char>, x: Seq<char>) -> Seq<char> {
    p + seq!['/'] + x
}

/// Whether `x` names one component: it is not empty, not ".", and holds no
/// separator.
pub open spec fn spec_component_name(x: Seq<char>) -> bool {
    &&& x.len() > 0
    &&& x != seq!['.']
    &&& forall|i: int| 0 <= i < x.len() ==> x[i] != '/'
}

/// Paths name the same components exactly when their whole component
/// sequences agree: two children of non-empty paths are the same path
/// exactly when their names are equal and their parents are the same path,
/// so paths that differ in a directory, or in the file name, never are.
pub proof fn lemma_same_path_children(p: Seq<char>, q: Seq<char>, x: Seq<char>, y: Seq<char>)
    requires
        p.len() > 0,
        q.len() > 0,
        spec_component_name(x),
        spec_component_name(y),
    ensures
        spec_same_path(spec_child(p, x), spec_child(q, y)) <==> (x == y && spec_same_path(p, q)),
{
    lemma_pieces_rev_child(p, x);
    lemma_pieces_rev_child(q, y);
    let a = spec_child(p, x);
    let b = spec_child(q, y);
    assert(a[0] == p[0] && b[0] == q[0]);
    if p.len() > 1 {
        assert(a[1] == p[1]);
    } else {
        assert(a[1] == '/');
    }
    if q.len() > 1 {
        assert(b[1] == q[1]);
    } else {
        assert(b[1] == '/');
    }
    let pa = spec_pieces_rev(a);
    let pb = spec_pieces_rev(b);
    if pa == pb {
        assert(pa[0] == x && pb[0] == y);
        assert(spec_pieces_rev(p) =~= pa.drop_first());
        assert(spec_pieces_rev(q) =~= pb.drop_first());
    }
}

/// Sameness of paths is reflexive and symmetric, and a path from the root
/// is never the same as one that is not.
pub proof fn lemma_same_path_basics(a: Seq<char>, b: Seq<char>)
    ensures
        spec_same_path(a, a),
        spec_same_path(a, b) == spec_same_path(b, a),
        (a.len() > 0 && a[0] == '/') && !(b.len() > 0 && b[0] == '/') ==> !spec_same_path(a, b),
{
}

/// Two paths that are each a single name are the same path exactly when
/// the names are equal.
pub proof fn lemma_same_path_single_names(x: Seq<char>, y: Seq<char>)
    requires
        spec_component_name(x),
        spec_component_name(y),
    ensures
        spec_same_path(x, y) <==> x == y,
{
    lemma_trailing_run_whole(x);
    lemma_trailing_run_whole(y);
    if spec_same_path(x, y) {
        assert(spec_pieces_rev(x) =~= seq![x]);
        assert(spec_pieces_rev(y) =~= seq![y]);
        assert(seq![x][0] == seq![y][0]);
    }
}

proof fn lemma_trailing_run_whole(x: Seq<char>)
    requires
        forall|i: int| 0 <= i < x.len() ==> x[i] != '/',
    ensures
        spec_trailing_run(x, '/') == x,
    decreases x.len(),
{
    if x.len() > 0 {
        lemma_trailing_run_whole(x.drop_last());
        assert(x.drop_last().push(x.last()) =~= x);
    }
}

} // verus!
