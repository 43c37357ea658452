use vstd::prelude::*;
use vstd::utf8::encode_utf8;

use crate::bmbf_utils::{CustomLevel, ids_unique, level_id, lib_ids};

verus! {

/// The orders in which the available levels can be listed.
#[derive(Clone, Copy, PartialEq, Eq, Structural, Debug)]
pub enum Sorting {
    BPMDsc,
    BPMAsc,
    NameDsc,
    NameAsc,
    ModifiedDsc,
    ModifiedAsc,
}

impl Sorting {
    /// The short text that names this order in a menu.
    pub fn label(&self) -> (r: String)
        ensures
            *self == Sorting::BPMDsc ==> r@ == "BPM \\/"@,
            *self == Sorting::BPMAsc ==> r@ == "BPM /\\"@,
            *self == Sorting::NameDsc ==> r@ == "Name \\/"@,
            *self == Sorting::NameAsc ==> r@ == "Name /\\"@,
            *self == Sorting::ModifiedDsc ==> r@ == "Created \\/"@,
            *self == Sorting::ModifiedAsc ==> r@ == "Created /\\"@,
    {
        match self {
            Sorting::BPMDsc => String::from_str("BPM \\/"),
            Sorting::BPMAsc => String::from_str("BPM /\\"),
            Sorting::NameDsc => String::from_str("Name \\/"),
            Sorting::NameAsc => String::from_str("Name /\\"),
            Sorting::ModifiedDsc => String::from_str("Created \\/"),
            Sorting::ModifiedAsc => String::from_str("Created /\\"),
        }
    }
}

/// The position of a tempo in the total order of `f32` values
/// (negative NaN, negative infinity, ..., -0.0, +0.0, ..., positive NaN),
/// given the value's bit pattern.
pub open spec fn tempo_rank(bits: u32) -> int {
    if bits < 0x8000_0000 {
        bits as int
    } else {
        0x7fff_ffff - bits as int
    }
}

/// Elapsed time as a number; a level with no elapsed time comes first.
pub open spec fn modified_rank(m: Option<u128>) -> int {
    match m {
        Some(x) => x as int,
        None => -1,
    }
}

/// Lexicographic order on bytes: a proper prefix comes first.
pub open spec fn bytes_lt(a: Seq<u8>, b: Seq<u8>) -> bool
    decreases a.len(),
{
    if b.len() == 0 {
        false
    } else if a.len() == 0 {
        true
    } else if a[0] != b[0] {
        a[0] < b[0]
    } else {
        bytes_lt(a.drop_first(), b.drop_first())
    }
}

/// The bytes of a level's name, which ordinal string comparison looks at.
pub open spec fn name_bytes(l: CustomLevel) -> Seq<u8> {
    encode_utf8(l.song_name@)
}

/// Whether `a` is listed strictly before `b` under `s`; levels where neither
/// is before the other are tied.
pub open spec fn sorts_before(s: Sorting, a: CustomLevel, b: CustomLevel) -> bool {
    match s {
        Sorting::BPMAsc => tempo_rank(a.beats_per_minute_bits) < tempo_rank(b.beats_per_minute_bits),
        Sorting::BPMDsc => tempo_rank(b.beats_per_minute_bits) < tempo_rank(a.beats_per_minute_bits),
        Sorting::NameAsc => bytes_lt(name_bytes(a), name_bytes(b)),
        Sorting::NameDsc => bytes_lt(name_bytes(b), name_bytes(a)),
        Sorting::ModifiedAsc => modified_rank(a.modified) < modified_rank(b.modified),
        Sorting::ModifiedDsc => modified_rank(b.modified) < modified_rank(a.modified),
    }
}

/// Order on the positions of `levels`, by `s`.
pub open spec fn by_sorting(s: Sorting, levels: Seq<CustomLevel>) -> spec_fn(int, int) -> bool {
    |i: int, j: int| sorts_before(s, levels[i], levels[j])
}

/// Order on positions, by ascending distance.
pub open spec fn by_distances(d: Seq<usize>) -> spec_fn(int, int) -> bool {
    |i: int, j: int| d[i] < d[j]
}

/// The Levenshtein distance between two character sequences: the fewest
/// insertions, deletions and substitutions of single characters that turn
/// `a` into `b`.
pub open spec fn levenshtein_of(a: Seq<char>, b: Seq<char>) -> nat
    decreases a.len() + b.len(),
{
    if a.len() == 0 {
        b.len()
    } else if b.len() == 0 {
        a.len()
    } else {
        let deletion = levenshtein_of(a.drop_last(), b) + 1;
        let insertion = levenshtein_of(a, b.drop_last()) + 1;
        let substitution = levenshtein_of(a.drop_last(), b.drop_last()) + if a.last() == b.last() {
            0nat
        } else {
            1nat
        };
        if deletion <= insertion && deletion <= substitution {
            deletion
        } else if insertion <= substitution {
            insertion
        } else {
            substitution
        }
    }
}

/// Order on the positions of `levels`, by ascending edit distance between
/// each level's name and `query`.
pub open spec fn by_distance_to(levels: Seq<CustomLevel>, query: Seq<char>) -> spec_fn(
    int,
    int,
) -> bool {
    |i: int, j: int|
        levenshtein_of(levels[i].song_name@, query) < levenshtein_of(levels[j].song_name@, query)
}

/// `p` lists the positions `0..n` once each, ordered by `before`, with tied
/// positions kept in ascending order.
pub open spec fn is_stable_order(p: Seq<usize>, n: nat, before: spec_fn(int, int) -> bool) -> bool {
    &&& p.len() == n
    &&& forall|k: int| 0 <= k < n ==> (#[trigger] p[k]) < n
    &&& forall|i: int| 0 <= i < n ==> #[trigger] p.contains(i as usize)
    &&& forall|a: int, b: int| 0 <= a < b < n ==> #[trigger] p[a] != #[trigger] p[b]
    &&& forall|a: int, b: int|
        0 <= a < b < n ==> #[trigger] before(p[a] as int, p[b] as int) || (!before(
            p[b] as int,
            p[a] as int,
        ) && p[a] < #[trigger] p[b])
}

/// `output` is `input` rearranged by `before`, ties keeping their order.
pub open spec fn stably_ordered(
    input: Seq<CustomLevel>,
    output: Seq<CustomLevel>,
    before: spec_fn(int, int) -> bool,
) -> bool {
    exists|p: Seq<usize>|
        #[trigger] is_stable_order(p, input.len(), before) && output.len() == p.len() && forall|
            k: int,
        |
            0 <= k < p.len() ==> output[k] == input[p[k] as int]
}

proof fn lemma_bytes_lt_asymmetric(a: Seq<u8>, b: Seq<u8>)
    ensures
        bytes_lt(a, b) ==> !bytes_lt(b, a),
    decreases a.len(),
{
    if a.len() > 0 && b.len() > 0 && a[0] == b[0] {
        lemma_bytes_lt_asymmetric(a.drop_first(), b.drop_first());
    }
}

proof fn lemma_bytes_lt_transitive(a: Seq<u8>, b: Seq<u8>, c: Seq<u8>)
    ensures
        bytes_lt(a, b) && bytes_lt(b, c) ==> bytes_lt(a, c),
    decreases a.len(),
{
    if a.len() > 0 && b.len() > 0 && c.len() > 0 {
        lemma_bytes_lt_transitive(a.drop_first(), b.drop_first(), c.drop_first());
    }
}

proof fn lemma_bytes_lt_total(a: Seq<u8>, b: Seq<u8>)
    ensures
        a =~= b || bytes_lt(a, b) || bytes_lt(b, a),
    decreases a.len(),
{
    if a.len() > 0 && b.len() > 0 && a[0] == b[0] {
        lemma_bytes_lt_total(a.drop_first(), b.drop_first());
        if a.drop_first() =~= b.drop_first() {
            assert(a =~= seq![a[0]] + a.drop_first());
            assert(b =~= seq![b[0]] + b.drop_first());
        }
    }
}

/// Anything ranked below `b` is ranked below everything that `b` is not above.
proof fn lemma_bytes_lt_weak(a: Seq<u8>, b: Seq<u8>, c: Seq<u8>)
    ensures
        bytes_lt(a, b) && !bytes_lt(c, b) ==> bytes_lt(a, c),
{
    lemma_bytes_lt_total(b, c);
    lemma_bytes_lt_transitive(a, b, c);
}

proof fn lemma_sorts_before_weak(s: Sorting, a: CustomLevel, b: CustomLevel, c: CustomLevel)
    ensures
        sorts_before(s, a, b) && !sorts_before(s, c, b) ==> sorts_before(s, a, c),
{
    match s {
        Sorting::NameAsc => lemma_bytes_lt_weak(name_bytes(a), name_bytes(b), name_bytes(c)),
        Sorting::NameDsc => {
            // b < a and not b < c: then c < a
            lemma_bytes_lt_total(name_bytes(b), name_bytes(c));
            lemma_bytes_lt_transitive(name_bytes(c), name_bytes(b), name_bytes(a));
        },
        _ => {},
    }
}

/// A reordering keeps the same levels: each output level is an input level
/// and the other way round, and one identity per level stays one per level.
pub proof fn lemma_reordered_levels(
    input: Seq<CustomLevel>,
    output: Seq<CustomLevel>,
    before: spec_fn(int, int) -> bool,
)
    requires
        stably_ordered(input, output, before),
        input.len() <= usize::MAX,
    ensures
        output.len() == input.len(),
        forall|k: int| 0 <= k < output.len() ==> input.contains(#[trigger] output[k]),
        forall|k: int| 0 <= k < input.len() ==> output.contains(#[trigger] input[k]),
        ids_unique(input) ==> ids_unique(output),
        lib_ids(output) == lib_ids(input),
{
    let p = choose|p: Seq<usize>|
        #[trigger] is_stable_order(p, input.len(), before) && output.len() == p.len() && forall|
            k: int,
        |
            0 <= k < p.len() ==> output[k] == input[p[k] as int];
    assert forall|k: int| 0 <= k < output.len() implies input.contains(#[trigger] output[k]) by {
        assert(output[k] == input[p[k] as int]);
    }
    assert forall|k: int| 0 <= k < input.len() implies output.contains(#[trigger] input[k]) by {
        assert(p.contains(k as usize));
        let w = choose|w: int| 0 <= w < p.len() && p[w] == k as usize;
        assert(output[w] == input[k]);
    }
    if ids_unique(input) {
        assert forall|i: int, j: int|
            0 <= i < output.len() && 0 <= j < output.len() && i != j && (#[trigger] level_id(
                output[i],
            )) is Some implies level_id(output[i]) != #[trigger] level_id(output[j]) by {
            assert(output[i] == input[p[i] as int]);
            assert(output[j] == input[p[j] as int]);
            if i < j {
                assert(p[i] != p[j]);
            } else {
                assert(p[j] != p[i]);
            }
        }
    }
    assert forall|h: Seq<char>| lib_ids(output).contains(h) <==> lib_ids(input).contains(h) by {
        if lib_ids(output).contains(h) {
            let i = choose|i: int| 0 <= i < output.len() && #[trigger] level_id(output[i]) == Some(h);
            assert(output[i] == input[p[i] as int]);
        }
        if lib_ids(input).contains(h) {
            let i = choose|i: int| 0 <= i < input.len() && #[trigger] level_id(input[i]) == Some(h);
            assert(p.contains(i as usize));
            let w = choose|w: int| 0 <= w < p.len() && p[w] == i as usize;
            assert(output[w] == input[i]);
        }
    }
    assert(lib_ids(output) =~= lib_ids(input));
}

/// What decides an order of positions: a field of the levels, or a distance per position.
enum Criterion {
    Field(Sorting),
    Distances(Vec<usize>),
}

spec fn criterion_order(c: Criterion, levels: Seq<CustomLevel>) -> spec_fn(int, int) -> bool {
    match c {
        Criterion::Field(s) => by_sorting(s, levels),
        Criterion::Distances(d) => by_distances(d@),
    }
}

spec fn criterion_fits(c: Criterion, n: nat) -> bool {
    match c {
        Criterion::Field(_) => true,
        Criterion::Distances(d) => d@.len() == n,
    }
}

proof fn lemma_criterion_weak(c: Criterion, levels: Seq<CustomLevel>, a: int, b: int, x: int)
    requires
        0 <= a < levels.len(),
        0 <= b < levels.len(),
        0 <= x < levels.len(),
    ensures
        criterion_order(c, levels)(a, b) && !criterion_order(c, levels)(x, b) ==> criterion_order(
            c,
            levels,
        )(a, x),
        criterion_order(c, levels)(a, b) ==> !criterion_order(c, levels)(b, a),
{
    match c {
        Criterion::Field(s) => {
            lemma_sorts_before_weak(s, levels[a], levels[b], levels[x]);
            lemma_bytes_lt_asymmetric(name_bytes(levels[a]), name_bytes(levels[b]));
            lemma_bytes_lt_asymmetric(name_bytes(levels[b]), name_bytes(levels[a]));
        },
        Criterion::Distances(_) => {},
    }
}

fn tempo_rank_of(bits: u32) -> (r: i64)
    ensures
        r == tempo_rank(bits),
{
    if bits < 0x8000_0000 {
        bits as i64
    } else {
        0x7fff_ffff - bits as i64
    }
}

fn modified_lt(a: Option<u128>, b: Option<u128>) -> (r: bool)
    ensures
        r == (modified_rank(a) < modified_rank(b)),
{
    match (a, b) {
        (Some(x), Some(y)) => x < y,
        (None, Some(_)) => true,
        _ => false,
    }
}

/// Ordinal comparison of two names, byte by byte.
pub fn name_lt(a: &String, b: &String) -> (r: bool)
    ensures
        r == bytes_lt(encode_utf8(a@), encode_utf8(b@)),
{
    let x = a.as_str().as_bytes();
    let y = b.as_str().as_bytes();
    let mut i: usize = 0;
    assert(x@.skip(0) =~= x@);
    assert(y@.skip(0) =~= y@);
    while i < x.len() && i < y.len() && x[i] == y[i]
        invariant
            x@ == encode_utf8(a@),
            y@ == encode_utf8(b@),
            i <= x@.len(),
            i <= y@.len(),
            bytes_lt(x@, y@) == bytes_lt(x@.skip(i as int), y@.skip(i as int)),
        decreases x@.len() - i,
    {
        assert(x@.skip(i as int).drop_first() =~= x@.skip(i + 1));
        assert(y@.skip(i as int).drop_first() =~= y@.skip(i + 1));
        i = i + 1;
    }
    if i == y.len() {
        false
    } else if i == x.len() {
        true
    } else {
        x[i] < y[i]
    }
}

fn sorts_before_exec(s: &Sorting, a: &CustomLevel, b: &CustomLevel) -> (r: bool)
    ensures
        r == sorts_before(*s, *a, *b),
{
    match s {
        Sorting::BPMAsc => tempo_rank_of(a.beats_per_minute_bits) < tempo_rank_of(
            b.beats_per_minute_bits,
        ),
        Sorting::BPMDsc => tempo_rank_of(b.beats_per_minute_bits) < tempo_rank_of(
            a.beats_per_minute_bits,
        ),
        Sorting::NameAsc => name_lt(&a.song_name, &b.song_name),
        Sorting::NameDsc => name_lt(&b.song_name, &a.song_name),
        Sorting::ModifiedAsc => modified_lt(a.modified, b.modified),
        Sorting::ModifiedDsc => modified_lt(b.modified, a.modified),
    }
}

fn criterion_before(c: &Criterion, levels: &Vec<CustomLevel>, i: usize, j: usize) -> (r: bool)
    requires
        i < levels@.len(),
        j < levels@.len(),
        criterion_fits(*c, levels@.len()),
    ensures
        r == criterion_order(*c, levels@)(i as int, j as int),
{
    match c {
        Criterion::Field(s) => sorts_before_exec(s, &levels[i], &levels[j]),
        Criterion::Distances(d) => d[i] < d[j],
    }
}

/// The positions of `levels` in stable order by `c`, found by insertion.
fn stable_order(levels: &Vec<CustomLevel>, c: &Criterion) -> (p: Vec<usize>)
    requires
        criterion_fits(*c, levels@.len()),
    ensures
        is_stable_order(p@, levels@.len(), criterion_order(*c, levels@)),
{
    let ghost before = criterion_order(*c, levels@);
    let n = levels.len();
    let mut p: Vec<usize> = Vec::new();
    let mut i: usize = 0;
    while i < n
        invariant
            n == levels@.len(),
            criterion_fits(*c, levels@.len()),
            before == criterion_order(*c, levels@),
            i <= n,
            p@.len() == i,
            forall|k: int| 0 <= k < i ==> (#[trigger] p@[k]) < i,
            forall|j: int| 0 <= j < i ==> #[trigger] p@.contains(j as usize),
            forall|a: int, b: int| 0 <= a < b < i ==> #[trigger] p@[a] != #[trigger] p@[b],
            forall|a: int, b: int|
                0 <= a < b < i ==> #[trigger] before(p@[a] as int, p@[b] as int) || (!before(
                    p@[b] as int,
                    p@[a] as int,
                ) && p@[a] < #[trigger] p@[b]),
        decreases n - i,
    {
        let mut pos: usize = 0;
        while pos < p.len() && !criterion_before(c, levels, i, p[pos])
            invariant
                n == levels@.len(),
                criterion_fits(*c, levels@.len()),
                before == criterion_order(*c, levels@),
                i < n,
                p@.len() == i,
                pos <= p@.len(),
                forall|k: int| 0 <= k < i ==> (#[trigger] p@[k]) < i,
                forall|k: int| 0 <= k < pos ==> !before(i as int, #[trigger] p@[k] as int),
            decreases p@.len() - pos,
        {
            pos = pos + 1;
        }
        proof {
            if pos < p@.len() {
                assert(before(i as int, p@[pos as int] as int));
                assert forall|k: int| pos <= k < p@.len() implies before(
                    i as int,
                    #[trigger] p@[k] as int,
                ) by {
                    if k > pos {
                        assert(before(p@[pos as int] as int, p@[k] as int) || (!before(
                            p@[k] as int,
                            p@[pos as int] as int,
                        ) && p@[pos as int] < p@[k]));
                        lemma_criterion_weak(
                            *c,
                            levels@,
                            i as int,
                            p@[pos as int] as int,
                            p@[k] as int,
                        );
                        lemma_criterion_weak(
                            *c,
                            levels@,
                            p@[pos as int] as int,
                            p@[k] as int,
                            i as int,
                        );
                    }
                }
            }
        }
        let ghost old_p = p@;
        p.insert(pos, i);
        proof {
            assert(p@ == old_p.insert(pos as int, i));
            assert forall|k: int| 0 <= k < i + 1 implies (#[trigger] p@[k]) < i + 1 by {
                if k < pos {
                    assert(p@[k] == old_p[k]);
                } else if k > pos {
                    assert(p@[k] == old_p[k - 1]);
                }
            }
            assert forall|j: int| 0 <= j < i + 1 implies #[trigger] p@.contains(j as usize) by {
                if j < i {
                    assert(old_p.contains(j as usize));
                    let w = choose|w: int| 0 <= w < old_p.len() && old_p[w] == j as usize;
                    if w < pos {
                        assert(p@[w] == j as usize);
                    } else {
                        assert(p@[w + 1] == j as usize);
                    }
                } else {
                    assert(p@[pos as int] == i);
                }
            }
            assert forall|a: int, b: int| 0 <= a < b < i + 1 implies #[trigger] p@[a]
                != #[trigger] p@[b] by {
                if b < pos {
                    assert(p@[a] == old_p[a] && p@[b] == old_p[b]);
                } else if b == pos {
                    assert(p@[a] == old_p[a]);
                } else if a == pos {
                    assert(p@[b] == old_p[b - 1]);
                } else if a < pos {
                    assert(p@[a] == old_p[a] && p@[b] == old_p[b - 1]);
                } else {
                    assert(p@[a] == old_p[a - 1] && p@[b] == old_p[b - 1]);
                }
            }
            assert forall|a: int, b: int| 0 <= a < b < i + 1 implies #[trigger] before(
                p@[a] as int,
                p@[b] as int,
            ) || (!before(p@[b] as int, p@[a] as int) && p@[a] < #[trigger] p@[b]) by {
                if b < pos {
                    assert(p@[a] == old_p[a] && p@[b] == old_p[b]);
                } else if b == pos {
                    assert(p@[a] == old_p[a]);
                    assert(!before(i as int, old_p[a] as int));
                } else if a == pos {
                    assert(p@[b] == old_p[b - 1]);
                    assert(before(i as int, old_p[b - 1] as int));
                } else if a < pos {
                    assert(p@[a] == old_p[a] && p@[b] == old_p[b - 1]);
                } else {
                    assert(p@[a] == old_p[a - 1] && p@[b] == old_p[b - 1]);
                }
            }
        }
        i = i + 1;
    }
    p
}

/// The levels at the positions `p`, in that order.
fn pick_levels(levels: &Vec<CustomLevel>, p: &Vec<usize>) -> (r: Vec<CustomLevel>)
    requires
        forall|k: int| 0 <= k < p@.len() ==> (#[trigger] p@[k]) < levels@.len(),
    ensures
        r@.len() == p@.len(),
        forall|k: int| 0 <= k < p@.len() ==> r@[k] == levels@[#[trigger] p@[k] as int],
{
    let mut r: Vec<CustomLevel> = Vec::new();
    let mut k: usize = 0;
    while k < p.len()
        invariant
            k <= p@.len(),
            r@.len() == k,
            forall|j: int| 0 <= j < p@.len() ==> (#[trigger] p@[j]) < levels@.len(),
            forall|j: int| 0 <= j < k ==> r@[j] == levels@[#[trigger] p@[j] as int],
        decreases p@.len() - k,
    {
        r.push(levels[p[k]].copy());
        k = k + 1;
    }
    r
}

fn order_levels(levels: &Vec<CustomLevel>, c: &Criterion) -> (r: Vec<CustomLevel>)
    requires
        criterion_fits(*c, levels@.len()),
    ensures
        stably_ordered(levels@, r@, criterion_order(*c, levels@)),
{
    let p = stable_order(levels, c);
    let r = pick_levels(levels, &p);
    assert(is_stable_order(p@, levels@.len(), criterion_order(*c, levels@)));
    r
}

/// `levels` listed in the order `sorting` names; levels that tie keep their order.
pub fn sort_levels(levels: &Vec<CustomLevel>, sorting: Sorting) -> (r: Vec<CustomLevel>)
    ensures
        stably_ordered(levels@, r@, by_sorting(sorting, levels@)),
{
    let c = Criterion::Field(sorting);
    order_levels(levels, &c)
}

/// `levels` listed by ascending `distances` (one per level); levels at equal
/// distance keep their order.
pub fn rank_by_distances(levels: &Vec<CustomLevel>, distances: Vec<usize>) -> (r: Vec<CustomLevel>)
    requires
        distances@.len() == levels@.len(),
    ensures
        stably_ordered(levels@, r@, by_distances(distances@)),
{
    let c = Criterion::Distances(distances);
    order_levels(levels, &c)
}

/// Relies on `levenshtein::levenshtein`: the Levenshtein distance between the
/// characters of two strings.
#[verifier::external_body]
fn levenshtein_distance(a: &str, b: &str) -> (r: usize)
    ensures
        r == levenshtein_of(a@, b@),
{
    levenshtein::levenshtein(a, b)
}

/// `levels` listed by ascending edit distance between each level's name and
/// `query`; levels at equal distance keep their order.
pub fn levenshtein_rank(levels: &Vec<CustomLevel>, query: &str) -> (r: Vec<CustomLevel>)
    ensures
        stably_ordered(levels@, r@, by_distance_to(levels@, query@)),
{
    let mut d: Vec<usize> = Vec::new();
    let mut k: usize = 0;
    while k < levels.len()
        invariant
            k <= levels@.len(),
            d@.len() == k,
            forall|j: int|
                0 <= j < k ==> #[trigger] d@[j] == levenshtein_of(levels@[j].song_name@, query@),
        decreases levels@.len() - k,
    {
        d.push(levenshtein_distance(levels[k].song_name.as_str(), query));
        k = k + 1;
    }
    let ghost ds = d@;
    let r = rank_by_distances(levels, d);
    proof {
        let p = choose|p: Seq<usize>|
            #[trigger] is_stable_order(p, levels@.len(), by_distances(ds)) && r@.len() == p.len()
                && forall|k: int| 0 <= k < p.len() ==> r@[k] == levels@[p[k] as int];
        let n = levels@.len();
        let f = by_distance_to(levels@, query@);
        let g = by_distances(ds);
        assert forall|a: int, b: int| 0 <= a < b < n implies #[trigger] f(
            p[a] as int,
            p[b] as int,
        ) || (!f(p[b] as int, p[a] as int) && p[a] < #[trigger] p[b]) by {
            assert(g(p[a] as int, p[b] as int) || (!g(p[b] as int, p[a] as int) && p[a] < p[b]));
            assert(p[a] < n && p[b] < n);
        }
        assert(is_stable_order(p, n, f));
    }
    r
}

} // verus!
