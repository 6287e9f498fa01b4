//! Lexical path normalization: no filesystem access, `/` as the separator.
use vstd::prelude::*;

verus! {

/// A segment that survives normalization: non-empty, not `.` or `..`, and
/// free of separators.
pub open spec fn is_plain(seg: Seq<char>) -> bool {
    &&& seg.len() > 0
    &&& seg != seq!['.']
    &&& seg != seq!['.', '.']
    &&& !seg.contains('/')
}

/// Applies one finished segment to the segments gathered so far: `.` and
/// empty segments vanish, `..` drops the last segment when there is one.
pub open spec fn close_segment(acc: Seq<Seq<char>>, seg: Seq<char>) -> Seq<Seq<char>> {
    if seg.len() == 0 || seg == seq!['.'] {
        acc
    } else if seg == seq!['.', '.'] {
        if acc.len() > 0 {
            acc.drop_last()
        } else {
            acc
        }
    } else {
        acc.push(seg)
    }
}

/// Reads `s` left to right from the state `(acc, cur)`: `acc` holds the
/// finished segments, `cur` the segment being read.
pub open spec fn scan(acc: Seq<Seq<char>>, cur: Seq<char>, s: Seq<char>) -> (Seq<Seq<char>>, Seq<char>)
    decreases s.len(),
{
    if s.len() == 0 {
        (acc, cur)
    } else {
        let st = scan(acc, cur, s.drop_last());
        if s.last() == '/' {
            (close_segment(st.0, st.1), Seq::empty())
        } else {
            (st.0, st.1.push(s.last()))
        }
    }
}

/// The resolved segments of `s`.
pub open spec fn segments(s: Seq<char>) -> Seq<Seq<char>> {
    let st = scan(Seq::empty(), Seq::empty(), s);
    close_segment(st.0, st.1)
}

pub open spec fn is_rooted(s: Seq<char>) -> bool {
    s.len() > 0 && s[0] == '/'
}

/// The segments separated by single `/`.
pub open spec fn join_segments(segs: Seq<Seq<char>>) -> Seq<char>
    decreases segs.len(),
{
    if segs.len() == 0 {
        Seq::empty()
    } else if segs.len() == 1 {
        segs[0]
    } else {
        join_segments(segs.drop_last()) + seq!['/'] + segs.last()
    }
}

pub open spec fn render(rooted: bool, segs: Seq<Seq<char>>) -> Seq<char> {
    if rooted {
        seq!['/'] + join_segments(segs)
    } else {
        join_segments(segs)
    }
}

/// The normal form of a path.
pub open spec fn normalize(s: Seq<char>) -> Seq<char> {
    render(is_rooted(s), segments(s))
}

fn close_segment_exec(segs: &mut Vec<String>, path: &str, start: usize, end: usize)
    requires
        start <= end <= path@.len(),
    ensures
        final(segs).deep_view() == close_segment(old(segs).deep_view(), path@.subrange(start as int, end as int)),
{
    let ghost seg = path@.subrange(start as int, end as int);
    let len = end - start;
    if len == 0 {
        return;
    }
    let first = path.get_char(start);
    if len == 1 && first == '.' {
        assert(seg =~= seq!['.']);
        return;
    }
    if len == 2 && first == '.' && path.get_char(start + 1) == '.' {
        assert(seg =~= seq!['.', '.']);
        if segs.len() > 0 {
            segs.pop();
            assert(segs.deep_view() =~= old(segs).deep_view().drop_last());
        }
        return;
    }
    assert(seg != seq!['.']) by {
        if len == 1 {
            assert(seg[0] == first);
        } else {
            assert(seg.len() != 1);
        }
    }
    assert(seg != seq!['.', '.']) by {
        if len == 2 {
            assert(seg[0] == first);
            assert(seg[1] == path@[start + 1]);
        } else {
            assert(seg.len() != 2);
        }
    }
    let s = String::from_str(path.substring_char(start, end));
    segs.push(s);
    assert(segs.deep_view() =~= old(segs).deep_view().push(seg));
}

/// The resolved segments of `path`, in order.
pub fn path_segments(path: &str) -> (r: Vec<String>)
    ensures
        r.deep_view() == segments(path@),
{
    let n = path.unicode_len();
    let mut segs: Vec<String> = Vec::new();
    let mut start: usize = 0;
    let mut i: usize = 0;
    assert(segs.deep_view() =~= Seq::<Seq<char>>::empty());
    assert(path@.subrange(0, 0) =~= Seq::<char>::empty());
    while i < n
        invariant
            n == path@.len(),
            start <= i <= n,
            scan(Seq::empty(), Seq::empty(), path@.subrange(0, i as int))
                == (segs.deep_view(), path@.subrange(start as int, i as int)),
        decreases n - i,
    {
        let c = path.get_char(i);
        assert(path@.subrange(0, i + 1).drop_last() =~= path@.subrange(0, i as int));
        if c == '/' {
            close_segment_exec(&mut segs, path, start, i);
            start = i + 1;
            assert(path@.subrange(start as int, i + 1) =~= Seq::<char>::empty());
        } else {
            assert(path@.subrange(start as int, i + 1) =~= path@.subrange(start as int, i as int).push(c));
        }
        i = i + 1;
    }
    assert(path@.subrange(0, n as int) =~= path@);
    close_segment_exec(&mut segs, path, start, n);
    segs
}

/// Writes `segs` back as a path, with a leading `/` when `rooted`.
pub fn render_path(rooted: bool, segs: &Vec<String>) -> (r: String)
    ensures
        r@ == render(rooted, segs.deep_view()),
{
    let mut out = String::new();
    proof {
        reveal_strlit("/");
    }
    if rooted {
        out.append("/");
    }
    let ghost prefix = out@;
    let mut k: usize = 0;
    while k < segs.len()
        invariant
            k <= segs.len(),
            prefix == (if rooted { seq!['/'] } else { Seq::<char>::empty() }),
            out@ == prefix + join_segments(segs.deep_view().subrange(0, k as int)),
        decreases segs.len() - k,
    {
        let ghost before = segs.deep_view().subrange(0, k as int);
        let ghost after = segs.deep_view().subrange(0, k + 1);
        assert(after.drop_last() =~= before);
        if k > 0 {
            proof {
                reveal_strlit("/");
            }
            out.append("/");
        } else {
            assert(join_segments(before) =~= Seq::<char>::empty());
            assert(out@ =~= prefix);
        }
        out.append(segs[k].as_str());
        assert(after.last() == segs[k as int]@);
        if k == 0 {
            assert(join_segments(after) == after[0]);
            assert(out@ =~= prefix + join_segments(after));
        } else {
            assert(join_segments(after) == join_segments(before) + seq!['/'] + after.last());
            assert(out@ =~= prefix + join_segments(after));
        }
        k = k + 1;
    }
    assert(segs.deep_view().subrange(0, segs.len() as int) =~= segs.deep_view());
    out
}

pub fn is_rooted_exec(path: &str) -> (r: bool)
    ensures
        r == is_rooted(path@),
{
    path.unicode_len() > 0 && path.get_char(0) == '/'
}

/// Lexically normalizes `path`: `.` segments vanish, `..` removes the segment
/// before it (or nothing, at the start), repeated and trailing `/` collapse.
pub fn normalize_path(path: &str) -> (r: String)
    ensures
        r@ == normalize(path@),
{
    let rooted = is_rooted_exec(path);
    let segs = path_segments(path);
    render_path(rooted, &segs)
}

/// Every segment is plain.
pub open spec fn all_plain(segs: Seq<Seq<char>>) -> bool {
    forall|k: int| 0 <= k < segs.len() ==> is_plain(#[trigger] segs[k])
}

/// Reading `x` then `y` is reading `x + y`.
pub proof fn lemma_scan_concat(acc: Seq<Seq<char>>, cur: Seq<char>, x: Seq<char>, y: Seq<char>)
    ensures
        scan(acc, cur, x + y) == scan(scan(acc, cur, x).0, scan(acc, cur, x).1, y),
    decreases y.len(),
{
    if y.len() == 0 {
        assert(x + y =~= x);
    } else {
        assert((x + y).drop_last() =~= x + y.drop_last());
        assert((x + y).last() == y.last());
        lemma_scan_concat(acc, cur, x, y.drop_last());
    }
}

/// Reading one more character.
pub proof fn lemma_scan_push(acc: Seq<Seq<char>>, cur: Seq<char>, s: Seq<char>, ch: char)
    ensures
        scan(acc, cur, s.push(ch)) == (if ch == '/' {
            (close_segment(scan(acc, cur, s).0, scan(acc, cur, s).1), Seq::<char>::empty())
        } else {
            (scan(acc, cur, s).0, scan(acc, cur, s).1.push(ch))
        }),
{
    assert(s.push(ch).drop_last() =~= s);
    assert(s.push(ch).last() == ch);
}

/// Reading a single character.
pub proof fn lemma_scan_char(acc: Seq<Seq<char>>, cur: Seq<char>, ch: char)
    ensures
        scan(acc, cur, seq![ch]) == (if ch == '/' {
            (close_segment(acc, cur), Seq::<char>::empty())
        } else {
            (acc, cur.push(ch))
        }),
{
    lemma_scan_push(acc, cur, Seq::empty(), ch);
    assert(Seq::<char>::empty().push(ch) =~= seq![ch]);
    assert(scan(acc, cur, Seq::empty()) == (acc, cur));
}

/// Text without a separator only extends the open segment.
pub proof fn lemma_scan_no_separator(acc: Seq<Seq<char>>, cur: Seq<char>, x: Seq<char>)
    requires
        !x.contains('/'),
    ensures
        scan(acc, cur, x) == (acc, cur + x),
    decreases x.len(),
{
    if x.len() == 0 {
        assert(cur + x =~= cur);
    } else {
        assert(!x.drop_last().contains('/')) by {
            if x.drop_last().contains('/') {
                let k = choose|k: int| 0 <= k < x.drop_last().len() && x.drop_last()[k] == '/';
                assert(x[k] == '/');
            }
        }
        assert(x.last() != '/') by {
            assert(x[x.len() - 1] == x.last());
        }
        lemma_scan_no_separator(acc, cur, x.drop_last());
        assert((cur + x.drop_last()).push(x.last()) =~= cur + x);
    }
}

/// Reading from the start only ever closes plain segments.
pub proof fn lemma_scan_plain(s: Seq<char>)
    ensures
        all_plain(scan(Seq::empty(), Seq::empty(), s).0),
        !scan(Seq::empty(), Seq::empty(), s).1.contains('/'),
    decreases s.len(),
{
    if s.len() > 0 {
        lemma_scan_plain(s.drop_last());
        let st = scan(Seq::empty(), Seq::empty(), s.drop_last());
        if s.last() == '/' {
            lemma_close_plain(st.0, st.1);
        } else {
            assert forall|k: int| 0 <= k < st.1.push(s.last()).len() implies st.1.push(s.last())[k] != '/' by {
                if k < st.1.len() {
                    assert(st.1.push(s.last())[k] == st.1[k]);
                    assert(st.1.contains(st.1[k]));
                }
            }
        }
    }
}

pub proof fn lemma_close_plain(acc: Seq<Seq<char>>, seg: Seq<char>)
    requires
        all_plain(acc),
        !seg.contains('/'),
    ensures
        all_plain(close_segment(acc, seg)),
{
    let r = close_segment(acc, seg);
    assert forall|k: int| 0 <= k < r.len() implies is_plain(#[trigger] r[k]) by {
        if k < acc.len() {
            assert(r[k] == acc[k]);
        }
    }
}

/// Every segment of a normal form is plain.
pub proof fn lemma_segments_plain(s: Seq<char>)
    ensures
        all_plain(segments(s)),
{
    lemma_scan_plain(s);
    let st = scan(Seq::empty(), Seq::empty(), s);
    lemma_close_plain(st.0, st.1);
}

/// Joined plain segments read back as all but the last closed, the last open.
pub proof fn lemma_scan_join(segs: Seq<Seq<char>>)
    requires
        all_plain(segs),
        segs.len() > 0,
    ensures
        scan(Seq::empty(), Seq::empty(), join_segments(segs)) == (segs.drop_last(), segs.last()),
    decreases segs.len(),
{
    let e = Seq::<Seq<char>>::empty();
    let c = Seq::<char>::empty();
    assert(is_plain(segs.last()));
    if segs.len() == 1 {
        lemma_scan_no_separator(e, c, segs[0]);
        assert(c + segs[0] =~= segs[0]);
        assert(segs.drop_last() =~= e);
    } else {
        let d = segs.drop_last();
        assert(all_plain(d)) by {
            assert forall|k: int| 0 <= k < d.len() implies is_plain(#[trigger] d[k]) by {
                assert(d[k] == segs[k]);
            }
        }
        lemma_scan_join(d);
        let j = join_segments(d);
        lemma_scan_concat(e, c, j, seq!['/']);
        lemma_scan_char(d.drop_last(), d.last(), '/');
        assert(is_plain(d.last()));
        assert(d.drop_last().push(d.last()) =~= d);
        lemma_scan_concat(e, c, j + seq!['/'], segs.last());
        lemma_scan_no_separator(d, c, segs.last());
        assert(c + segs.last() =~= segs.last());
        assert(join_segments(segs) == j + seq!['/'] + segs.last());
    }
}

/// Plain segments written out read back as themselves.
pub proof fn lemma_segments_render(rooted: bool, segs: Seq<Seq<char>>)
    requires
        all_plain(segs),
    ensures
        segments(render(rooted, segs)) == segs,
        is_rooted(render(rooted, segs)) == rooted,
{
    let e = Seq::<Seq<char>>::empty();
    let c = Seq::<char>::empty();
    let j = join_segments(segs);
    if segs.len() == 0 {
        assert(j =~= c);
    } else {
        lemma_scan_join(segs);
        assert(is_plain(segs.last()));
        assert(segs.drop_last().push(segs.last()) =~= segs);
        lemma_join_first(segs);
        assert(is_plain(segs[0]));
        assert(segs[0].contains(segs[0][0]));
    }
    if rooted {
        lemma_scan_concat(e, c, seq!['/'], j);
        lemma_scan_char(e, c, '/');
    }
}

/// A join of segments starts as its first segment does.
pub proof fn lemma_join_first(segs: Seq<Seq<char>>)
    requires
        segs.len() > 0,
        segs[0].len() > 0,
    ensures
        join_segments(segs).len() > 0,
        join_segments(segs)[0] == segs[0][0],
    decreases segs.len(),
{
    if segs.len() > 1 {
        lemma_join_first(segs.drop_last());
    }
}

/// Normalizing a normalized path changes nothing.
pub proof fn lemma_normalize_idempotent(s: Seq<char>)
    ensures
        normalize(normalize(s)) == normalize(s),
{
    lemma_segments_plain(s);
    lemma_segments_render(is_rooted(s), segments(s));
}

/// The state after reading `p/`: whatever the state, the open segment is empty.
proof fn lemma_scan_after_separator(p: Seq<char>)
    ensures
        scan(Seq::empty(), Seq::empty(), p + seq!['/']).1 == Seq::<char>::empty(),
        scan(Seq::empty(), Seq::empty(), p + seq!['/']).0 == close_segment(
            scan(Seq::empty(), Seq::empty(), p).0,
            scan(Seq::empty(), Seq::empty(), p).1,
        ),
{
    assert((p + seq!['/']).drop_last() =~= p);
}

/// Two paths with the same rootedness that read to the same state after
/// their first parts normalize alike when followed by the same text.
proof fn lemma_same_prefix_state(a: Seq<char>, b: Seq<char>, q: Seq<char>)
    requires
        scan(Seq::empty(), Seq::empty(), a) == scan(Seq::empty(), Seq::empty(), b),
        a.len() > 0,
        b.len() > 0,
        a[0] == b[0],
    ensures
        normalize(a + q) == normalize(b + q),
{
    lemma_scan_concat(Seq::empty(), Seq::empty(), a, q);
    lemma_scan_concat(Seq::empty(), Seq::empty(), b, q);
    assert((a + q)[0] == a[0]);
    assert((b + q)[0] == b[0]);
}

/// A `.` segment changes nothing: `p/./q` and `p/q` normalize alike.
pub proof fn lemma_normalize_drops_current_dir(p: Seq<char>, q: Seq<char>)
    ensures
        normalize(p + seq!['/', '.', '/'] + q) == normalize(p + seq!['/'] + q),
{
    let e = Seq::<Seq<char>>::empty();
    let c = Seq::<char>::empty();
    let a = p + seq!['/'];
    lemma_scan_after_separator(p);
    let st = scan(e, c, a);
    lemma_scan_concat(e, c, a, seq!['.', '/']);
    lemma_scan_char(st.0, st.1, '.');
    assert(c.push('.') =~= seq!['.']);
    lemma_scan_push(st.0, st.1, seq!['.'], '/');
    assert(seq!['.'].push('/') =~= seq!['.', '/']);
    assert(scan(st.0, st.1, seq!['.', '/']) == (st.0, c));
    assert(a + seq!['.', '/'] =~= p + seq!['/', '.', '/']);
    lemma_same_prefix_state(p + seq!['/', '.', '/'], a, q);
    assert(p + seq!['/', '.', '/'] + q =~= (p + seq!['/', '.', '/']) + q);
}

/// A plain segment followed by `..` changes nothing: `p/x/../q` and `p/q`
/// normalize alike.
pub proof fn lemma_normalize_drops_parent_dir(p: Seq<char>, x: Seq<char>, q: Seq<char>)
    requires
        is_plain(x),
    ensures
        normalize(p + seq!['/'] + x + seq!['/', '.', '.', '/'] + q) == normalize(p + seq!['/'] + q),
{
    let e = Seq::<Seq<char>>::empty();
    let c = Seq::<char>::empty();
    let a = p + seq!['/'];
    lemma_scan_after_separator(p);
    let st = scan(e, c, a);
    let acc = st.0;
    lemma_scan_concat(e, c, a, x);
    lemma_scan_no_separator(acc, c, x);
    assert(c + x =~= x);
    let t = seq!['/', '.', '.', '/'];
    lemma_scan_concat(e, c, a + x, t);
    lemma_scan_char(acc, x, '/');
    lemma_scan_push(acc, x, seq!['/'], '.');
    assert(seq!['/'].push('.') =~= seq!['/', '.']);
    lemma_scan_push(acc, x, seq!['/', '.'], '.');
    assert(seq!['/', '.'].push('.') =~= seq!['/', '.', '.']);
    lemma_scan_push(acc, x, seq!['/', '.', '.'], '/');
    assert(seq!['/', '.', '.'].push('/') =~= t);
    assert(c.push('.') =~= seq!['.']);
    assert(seq!['.'].push('.') =~= seq!['.', '.']);
    assert(scan(acc, x, seq!['/']) == (acc.push(x), c));
    assert(scan(acc, x, seq!['/', '.']) == (acc.push(x), seq!['.']));
    assert(scan(acc, x, seq!['/', '.', '.']) == (acc.push(x), seq!['.', '.']));
    assert(acc.push(x).drop_last() =~= acc);
    assert(scan(acc, x, t) == (acc, c));
    let b = p + seq!['/'] + x + t;
    assert(a + x + t =~= b);
    lemma_same_prefix_state(b, a, q);
}

/// `name` looked up under `base`: a rooted `name` stands for itself.
pub open spec fn join_path(base: Seq<char>, name: Seq<char>) -> Seq<char> {
    if is_rooted(name) || base.len() == 0 {
        name
    } else {
        base + seq!['/'] + name
    }
}

/// The directory that holds `s`: its normal form without the last segment
/// (the root, or the empty path, has no parent and stays as it is).
pub open spec fn parent(s: Seq<char>) -> Seq<char> {
    let segs = segments(s);
    render(is_rooted(s), if segs.len() > 0 { segs.drop_last() } else { segs })
}

/// `name` placed under `base`, not yet normalized.
pub fn join_path_exec(base: &str, name: &str) -> (r: String)
    ensures
        r@ == join_path(base@, name@),
{
    if is_rooted_exec(name) || base.unicode_len() == 0 {
        String::from_str(name)
    } else {
        let mut r = String::from_str(base);
        proof {
            reveal_strlit("/");
        }
        r.append("/");
        r.append(name);
        r
    }
}

/// The directory that holds `path`.
pub fn parent_of(path: &str) -> (r: String)
    ensures
        r@ == parent(path@),
{
    let rooted = is_rooted_exec(path);
    let mut segs = path_segments(path);
    if segs.len() > 0 {
        segs.pop();
        assert(segs.deep_view() =~= segments(path@).drop_last());
    }
    render_path(rooted, &segs)
}

/// The last segment of `s`: everything after its last `/`.
pub open spec fn file_name(s: Seq<char>) -> Seq<char>
    decreases s.len(),
{
    if s.len() == 0 || s.last() == '/' {
        Seq::empty()
    } else {
        file_name(s.drop_last()).push(s.last())
    }
}

/// The last segment of `path`: everything after its last `/`, or the whole
/// of `path` when it holds none.
pub fn file_name_of(path: &str) -> (r: String)
    ensures
        r@ == file_name(path@),
{
    let n = path.unicode_len();
    let mut k: usize = n;
    assert(path@.subrange(0, n as int) =~= path@);
    assert(path@.subrange(n as int, n as int) =~= Seq::<char>::empty());
    while k > 0 && path.get_char(k - 1) != '/'
        invariant
            n == path@.len(),
            k <= n,
            file_name(path@) == file_name(path@.subrange(0, k as int)) + path@.subrange(k as int, n as int),
        decreases k,
    {
        let ghost pre = path@.subrange(0, k as int);
        assert(pre.drop_last() =~= path@.subrange(0, k - 1));
        assert(path@.subrange(k - 1, n as int) =~= seq![pre.last()] + path@.subrange(k as int, n as int));
        assert(file_name(pre) == file_name(pre.drop_last()).push(pre.last()));
        assert(file_name(path@) =~= file_name(path@.subrange(0, k - 1)) + path@.subrange(k - 1, n as int));
        k = k - 1;
    }
    assert(file_name(path@.subrange(0, k as int)) =~= Seq::<char>::empty());
    assert(file_name(path@) =~= path@.subrange(k as int, n as int));
    String::from_str(path.substring_char(k, n))
}

} // verus!
