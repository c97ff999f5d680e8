//! The tile tree: a binary split tree read from tile chunks and their
//! placements. A split's `ratio` is the seq-first child's share of its axis;
//! the tree carries it through untouched, whatever number type the caller
//! measures with.

use vstd::prelude::*;

verus! {

#[derive(Debug, Clone, Copy, PartialEq, Eq, Structural)]
pub enum Direction {
    Horizontal,
    Vertical,
}

/// The parsed tile tree. `first` is the seq-first child.
#[derive(Debug, PartialEq)]
pub enum Tile<R> {
    Leaf { id: String },
    Split { id: String, direction: Direction, ratio: R, first: Box<Tile<R>>, second: Box<Tile<R>> },
}

/// A tile tree with its ids read as characters.
pub enum TileView<R> {
    Leaf(Seq<char>),
    Split(Seq<char>, Direction, R, Box<TileView<R>>, Box<TileView<R>>),
}

pub open spec fn tile_view<R>(t: Tile<R>) -> TileView<R>
    decreases t,
{
    match t {
        Tile::Leaf { id } => TileView::Leaf(id@),
        Tile::Split { id, direction, ratio, first, second } => TileView::Split(
            id@,
            direction,
            ratio,
            Box::new(tile_view(*first)),
            Box::new(tile_view(*second)),
        ),
    }
}

impl<R> View for Tile<R> {
    type V = TileView<R>;

    open spec fn view(&self) -> TileView<R> {
        tile_view(*self)
    }
}

/// The walk-first leaf: follow `first` down to a leaf.
pub open spec fn first_leaf_of<R>(t: TileView<R>) -> Seq<char>
    decreases t,
{
    match t {
        TileView::Leaf(id) => id,
        TileView::Split(_, _, _, first, _) => first_leaf_of(*first),
    }
}

/// The leaves of a tree, depth first, seq-first child first.
pub open spec fn leaves_of<R>(t: TileView<R>) -> Seq<Seq<char>>
    decreases t,
{
    match t {
        TileView::Leaf(id) => seq![id],
        TileView::Split(_, _, _, first, second) => leaves_of(*first) + leaves_of(*second),
    }
}

/// The characters of each string in a sequence.
pub open spec fn views_of(v: Seq<String>) -> Seq<Seq<char>> {
    Seq::new(v.len(), |i: int| v[i]@)
}

/// The walk-first leaf, where boot lands its tile run.
pub fn first_leaf<R>(tile: &Tile<R>) -> (id: &str)
    ensures
        id@ == first_leaf_of(tile@),
    decreases tile,
{
    match tile {
        Tile::Leaf { id } => id.as_str(),
        Tile::Split { first, .. } => first_leaf(first),
    }
}

/// The ids of every leaf, in walk order.
pub fn leaf_ids<R>(tree: &Tile<R>) -> (ids: Vec<String>)
    ensures
        views_of(ids@) == leaves_of(tree@),
    decreases tree,
{
    match tree {
        Tile::Leaf { id } => {
            let mut ids: Vec<String> = Vec::new();
            ids.push(id.clone());
            assert(views_of(ids@) =~= leaves_of(tree@));
            ids
        },
        Tile::Split { first, second, .. } => {
            let mut ids = leaf_ids(first);
            let more = leaf_ids(second);
            let ghost front = ids@;
            let mut i: usize = 0;
            while i < more.len()
                invariant
                    i <= more@.len(),
                    ids@ == front + more@.take(i as int),
                decreases more.len() - i,
            {
                ids.push(more[i].clone());
                i = i + 1;
                assert(ids@ =~= front + more@.take(i as int));
            }
            assert(more@.take(i as int) =~= more@);
            assert(views_of(ids@) =~= views_of(front) + views_of(more@));
            ids
        },
    }
}

/// A `host/tile` chunk body: a split `{ direction, ratio }` or an empty leaf.
#[derive(Debug, Clone, Copy, PartialEq)]
pub enum TileBody<R> {
    Split { direction: Direction, ratio: R },
    Leaf,
}

#[derive(Debug, Clone, PartialEq)]
pub struct TileChunk<R> {
    pub id: String,
    pub body: TileBody<R>,
}

/// An instance placement of a tile on a tab or a parent tile; seq chooses
/// the side.
#[derive(Debug, Clone, PartialEq)]
pub struct Placement {
    pub tile: String,
    pub scope: String,
    pub seq: i64,
}

#[derive(Debug, Clone, PartialEq)]
pub enum ParseError {
    /// The tab has no tile placed on it.
    NoRoot,
    /// The tab has more than one tile placed on it.
    MultipleRoots,
    /// A placement names a tile chunk that wasn't given.
    MissingChunk(String),
    /// A split tile must hold exactly two children.
    SplitChildren { id: String, count: usize },
    /// A leaf tile holds no children.
    LeafChildren(String),
}

pub enum ParseErrorView {
    NoRoot,
    MultipleRoots,
    MissingChunk(Seq<char>),
    SplitChildren(Seq<char>, nat),
    LeafChildren(Seq<char>),
}

impl View for ParseError {
    type V = ParseErrorView;

    open spec fn view(&self) -> ParseErrorView {
        match self {
            ParseError::NoRoot => ParseErrorView::NoRoot,
            ParseError::MultipleRoots => ParseErrorView::MultipleRoots,
            ParseError::MissingChunk(id) => ParseErrorView::MissingChunk(id@),
            ParseError::SplitChildren { id, count } => ParseErrorView::SplitChildren(
                id@,
                *count as nat,
            ),
            ParseError::LeafChildren(id) => ParseErrorView::LeafChildren(id@),
        }
    }
}

/// A parse's outcome read as views; `None` is a walk that ran past its depth.
pub open spec fn outcome_view<R>(r: Option<Result<Tile<R>, ParseError>>) -> Option<
    Result<TileView<R>, ParseErrorView>,
> {
    match r {
        None => None,
        Some(Ok(t)) => Some(Ok(t@)),
        Some(Err(e)) => Some(Err(e@)),
    }
}

/// The indices, in input order, of the placements among the first `n` that
/// sit on `scope`.
pub open spec fn on_scope(scope: Seq<char>, ps: Seq<Placement>, n: int) -> Seq<int>
    decreases n,
{
    if n <= 0 {
        Seq::empty()
    } else if ps[n - 1].scope@ == scope {
        on_scope(scope, ps, n - 1).push(n - 1)
    } else {
        on_scope(scope, ps, n - 1)
    }
}

/// Inserts placement `i` after every entry whose seq is not above its own.
pub open spec fn insert_by_seq(sorted: Seq<int>, i: int, ps: Seq<Placement>) -> Seq<int>
    decreases sorted.len(),
{
    if sorted.len() == 0 {
        seq![i]
    } else if ps[sorted.last()].seq <= ps[i].seq {
        sorted.push(i)
    } else {
        insert_by_seq(sorted.drop_last(), i, ps).push(sorted.last())
    }
}

/// Indices ordered by their placements' seq; equal seqs keep their order.
pub open spec fn by_seq(idx: Seq<int>, ps: Seq<Placement>) -> Seq<int>
    decreases idx.len(),
{
    if idx.len() == 0 {
        Seq::empty()
    } else {
        insert_by_seq(by_seq(idx.drop_last(), ps), idx.last(), ps)
    }
}

/// The placements on `scope`, ordered by seq (a stable order).
pub open spec fn children(scope: Seq<char>, ps: Seq<Placement>) -> Seq<int> {
    by_seq(on_scope(scope, ps, ps.len() as int), ps)
}

/// The first tile chunk with this id.
pub open spec fn find_tile<R>(id: Seq<char>, tiles: Seq<TileChunk<R>>, n: int) -> Option<int>
    decreases n,
{
    if n <= 0 {
        None
    } else {
        match find_tile(id, tiles, n - 1) {
            Some(k) => Some(k),
            None => if tiles[n - 1].id@ == id {
                Some(n - 1)
            } else {
                None
            },
        }
    }
}

/// The tree rooted at tile `id`, built at most `depth` levels deep: the chunk
/// must exist; a leaf holds no children; a split holds exactly two, built
/// seq-first child first. `None` when the depth runs out.
pub open spec fn build_tree<R>(
    id: Seq<char>,
    tiles: Seq<TileChunk<R>>,
    ps: Seq<Placement>,
    depth: nat,
) -> Option<Result<TileView<R>, ParseErrorView>>
    decreases depth,
{
    if depth == 0 {
        None
    } else {
        match find_tile(id, tiles, tiles.len() as int) {
            None => Some(Err(ParseErrorView::MissingChunk(id))),
            Some(k) => {
                let kids = children(id, ps);
                match tiles[k].body {
                    TileBody::Leaf => if kids.len() == 0 {
                        Some(Ok(TileView::Leaf(id)))
                    } else {
                        Some(Err(ParseErrorView::LeafChildren(id)))
                    },
                    TileBody::Split { direction, ratio } => if kids.len() == 2 {
                        match build_tree(ps[kids[0]].tile@, tiles, ps, (depth - 1) as nat) {
                            None => None,
                            Some(Err(e)) => Some(Err(e)),
                            Some(Ok(first)) => match build_tree(
                                ps[kids[1]].tile@,
                                tiles,
                                ps,
                                (depth - 1) as nat,
                            ) {
                                None => None,
                                Some(Err(e)) => Some(Err(e)),
                                Some(Ok(second)) => Some(
                                    Ok(
                                        TileView::Split(
                                            id,
                                            direction,
                                            ratio,
                                            Box::new(first),
                                            Box::new(second),
                                        ),
                                    ),
                                ),
                            },
                        }
                    } else {
                        Some(Err(ParseErrorView::SplitChildren(id, kids.len())))
                    },
                }
            },
        }
    }
}

/// The tree of the single tile placed on `tab`, built at most `depth` deep.
pub open spec fn parse_tree<R>(
    tab: Seq<char>,
    tiles: Seq<TileChunk<R>>,
    ps: Seq<Placement>,
    depth: nat,
) -> Option<Result<TileView<R>, ParseErrorView>> {
    let roots = children(tab, ps);
    if roots.len() == 0 {
        Some(Err(ParseErrorView::NoRoot))
    } else if roots.len() == 1 {
        build_tree(ps[roots[0]].tile@, tiles, ps, depth)
    } else {
        Some(Err(ParseErrorView::MultipleRoots))
    }
}

/// The walk from `tab` comes to an end: no tile below it is its own
/// ancestor. A path of more levels than there are placements repeats a tile,
/// and from a repeated tile the walk repeats forever.
pub open spec fn parse_ends<R>(tab: Seq<char>, tiles: Seq<TileChunk<R>>, ps: Seq<Placement>) -> bool {
    parse_tree(tab, tiles, ps, ps.len() + 1) is Some
}

proof fn lemma_on_scope_bound(scope: Seq<char>, ps: Seq<Placement>, n: int)
    requires
        0 <= n <= ps.len(),
    ensures
        forall|j: int| 0 <= j < on_scope(scope, ps, n).len() ==> 0 <= #[trigger] on_scope(scope, ps, n)[j] < n,
    decreases n,
{
    if n > 0 {
        lemma_on_scope_bound(scope, ps, n - 1);
        let prev = on_scope(scope, ps, n - 1);
        if ps[n - 1].scope@ == scope {
            assert forall|j: int| 0 <= j < prev.push(n - 1).len() implies 0 <= #[trigger] prev.push(
                n - 1,
            )[j] < n by {
                if j < prev.len() {
                    assert(prev.push(n - 1)[j] == prev[j]);
                }
            }
        }
    }
}

/// Once found, the first tile with an id stays the first as more tiles are
/// looked at, and it is one of them.
proof fn lemma_find_tile_stays<R>(id: Seq<char>, tiles: Seq<TileChunk<R>>, k: int, n: int)
    requires
        find_tile(id, tiles, k + 1) == Some(k),
        k + 1 <= n,
    ensures
        find_tile(id, tiles, n) == Some(k),
    decreases n - k,
{
    if n > k + 1 {
        lemma_find_tile_stays(id, tiles, k, n - 1);
    }
}

proof fn lemma_find_tile_range<R>(id: Seq<char>, tiles: Seq<TileChunk<R>>, n: int)
    ensures
        find_tile(id, tiles, n) matches Some(k) ==> 0 <= k < n && tiles[k].id@ == id,
    decreases n,
{
    if n > 0 {
        lemma_find_tile_range(id, tiles, n - 1);
    }
}

proof fn lemma_insert_bound(sorted: Seq<int>, i: int, ps: Seq<Placement>, n: int)
    requires
        0 <= i < n,
        forall|j: int| 0 <= j < sorted.len() ==> 0 <= #[trigger] sorted[j] < n,
    ensures
        insert_by_seq(sorted, i, ps).len() == sorted.len() + 1,
        forall|j: int| 0 <= j < insert_by_seq(sorted, i, ps).len() ==> 0 <= #[trigger] insert_by_seq(sorted, i, ps)[j] < n,
    decreases sorted.len(),
{
    if sorted.len() > 0 && !(ps[sorted.last()].seq <= ps[i].seq) {
        lemma_insert_bound(sorted.drop_last(), i, ps, n);
    }
}

proof fn lemma_by_seq_bound(idx: Seq<int>, ps: Seq<Placement>, n: int)
    requires
        forall|j: int| 0 <= j < idx.len() ==> 0 <= #[trigger] idx[j] < n,
    ensures
        by_seq(idx, ps).len() == idx.len(),
        forall|j: int| 0 <= j < by_seq(idx, ps).len() ==> 0 <= #[trigger] by_seq(idx, ps)[j] < n,
    decreases idx.len(),
{
    if idx.len() > 0 {
        lemma_by_seq_bound(idx.drop_last(), ps, n);
        lemma_insert_bound(by_seq(idx.drop_last(), ps), idx.last(), ps, n);
    }
}

/// Where placement `i` is inserted into `sorted`.
fn insert_by_seq_exec(sorted: &mut Vec<usize>, i: usize, ps: &Vec<Placement>)
    requires
        i < ps.len(),
        forall|j: int| 0 <= j < old(sorted).len() ==> (#[trigger] old(sorted)[j]) < ps.len(),
    ensures
        final(sorted)@.map_values(|x: usize| x as int) == insert_by_seq(
            old(sorted)@.map_values(|x: usize| x as int),
            i as int,
            ps@,
        ),
        forall|j: int| 0 <= j < final(sorted).len() ==> (#[trigger] final(sorted)[j]) < ps.len(),
{
    let ghost s = old(sorted)@.map_values(|x: usize| x as int);
    let key = ps[i].seq;
    let mut j = sorted.len();
    assert(s.take(j as int) =~= s);
    assert(s.skip(j as int) =~= Seq::<int>::empty());
    while j > 0 && ps[sorted[j - 1]].seq > key
        invariant
            j <= sorted.len(),
            sorted@ == old(sorted)@,
            s == old(sorted)@.map_values(|x: usize| x as int),
            i < ps.len(),
            key == ps@[i as int].seq,
            forall|k: int| 0 <= k < sorted.len() ==> (#[trigger] sorted[k]) < ps.len(),
            insert_by_seq(s, i as int, ps@) == insert_by_seq(s.take(j as int), i as int, ps@)
                + s.skip(j as int),
        decreases j,
    {
        let ghost t = s.take(j as int);
        assert(t.last() == sorted[j - 1] as int);
        assert(t.drop_last() =~= s.take(j - 1));
        assert(s.skip(j - 1) =~= seq![t.last()] + s.skip(j as int));
        assert(insert_by_seq(t, i as int, ps@) == insert_by_seq(t.drop_last(), i as int, ps@).push(
            t.last(),
        ));
        assert(insert_by_seq(t.drop_last(), i as int, ps@).push(t.last()) + s.skip(j as int)
            =~= insert_by_seq(t.drop_last(), i as int, ps@) + s.skip(j - 1));
        j = j - 1;
    }
    proof {
        let t = s.take(j as int);
        if j > 0 {
            assert(t.last() == sorted[j - 1] as int);
            assert(insert_by_seq(t, i as int, ps@) == t.push(i as int));
        } else {
            assert(t =~= Seq::<int>::empty());
        }
    }
    sorted.insert(j, i);
    assert(sorted@.map_values(|x: usize| x as int) =~= s.take(j as int).push(i as int) + s.skip(
        j as int,
    ));
}

/// The placements on `scope`, ordered by seq (stable), as indices.
fn children_of(scope: &str, ps: &Vec<Placement>) -> (kids: Vec<usize>)
    ensures
        kids@.map_values(|x: usize| x as int) == children(scope@, ps@),
        forall|j: int| 0 <= j < kids.len() ==> (#[trigger] kids[j]) < ps.len(),
{
    let target = scope.to_owned();
    let mut kids: Vec<usize> = Vec::new();
    let mut i: usize = 0;
    while i < ps.len()
        invariant
            i <= ps.len(),
            target@ == scope@,
            kids@.map_values(|x: usize| x as int) == by_seq(on_scope(scope@, ps@, i as int), ps@),
            forall|j: int| 0 <= j < kids.len() ==> (#[trigger] kids[j]) < ps.len(),
        decreases ps.len() - i,
    {
        if ps[i].scope == target {
            let ghost before = on_scope(scope@, ps@, i as int);
            insert_by_seq_exec(&mut kids, i, ps);
            assert(on_scope(scope@, ps@, i + 1) == before.push(i as int));
            assert(on_scope(scope@, ps@, i + 1).drop_last() =~= before);
        }
        i = i + 1;
    }
    kids
}

/// The first tile chunk with this id.
fn find_tile_exec<R>(id: &str, tiles: &Vec<TileChunk<R>>) -> (k: Option<usize>)
    ensures
        match k {
            Some(k) => find_tile(id@, tiles@, tiles.len() as int) == Some(k as int),
            None => find_tile(id@, tiles@, tiles.len() as int) is None,
        },
{
    let target = id.to_owned();
    let mut i: usize = 0;
    while i < tiles.len()
        invariant
            i <= tiles.len(),
            target@ == id@,
            find_tile(id@, tiles@, i as int) is None,
        decreases tiles.len() - i,
    {
        if tiles[i].id == target {
            proof {
                lemma_find_tile_stays(id@, tiles@, i as int, tiles.len() as int);
            }
            return Some(i);
        }
        i = i + 1;
    }
    None
}

fn build<R: Copy>(id: &str, tiles: &Vec<TileChunk<R>>, ps: &Vec<Placement>, depth: usize) -> (r:
    Option<Result<Tile<R>, ParseError>>)
    ensures
        outcome_view(r) == build_tree(id@, tiles@, ps@, depth as nat),
    decreases depth,
{
    if depth == 0 {
        return None;
    }
    let k = match find_tile_exec(id, tiles) {
        None => return Some(Err(ParseError::MissingChunk(id.to_owned()))),
        Some(k) => k,
    };
    proof {
        lemma_find_tile_range(id@, tiles@, tiles.len() as int);
    }
    let kids = children_of(id, ps);
    proof {
        assert(kids@.map_values(|x: usize| x as int).len() == kids.len());
    }
    match tiles[k].body {
        TileBody::Leaf => {
            if kids.len() == 0 {
                Some(Ok(Tile::Leaf { id: id.to_owned() }))
            } else {
                Some(Err(ParseError::LeafChildren(id.to_owned())))
            }
        },
        TileBody::Split { direction, ratio } => {
            if kids.len() == 2 {
                assert(kids@.map_values(|x: usize| x as int)[0] == kids[0] as int);
                assert(kids@.map_values(|x: usize| x as int)[1] == kids[1] as int);
                let first = match build(ps[kids[0]].tile.as_str(), tiles, ps, depth - 1) {
                    None => return None,
                    Some(Err(e)) => return Some(Err(e)),
                    Some(Ok(t)) => t,
                };
                let second = match build(ps[kids[1]].tile.as_str(), tiles, ps, depth - 1) {
                    None => return None,
                    Some(Err(e)) => return Some(Err(e)),
                    Some(Ok(t)) => t,
                };
                Some(
                    Ok(
                        Tile::Split {
                            id: id.to_owned(),
                            direction,
                            ratio,
                            first: Box::new(first),
                            second: Box::new(second),
                        },
                    ),
                )
            } else {
                Some(Err(ParseError::SplitChildren { id: id.to_owned(), count: kids.len() }))
            }
        },
    }
}

/// Placements and tile bodies into a tree, rooted at the single tile placed on
/// `tab`, walking no deeper than one level per placement. `None` when the
/// walk would go deeper, which only a tile that is its own ancestor causes.
pub fn parse_bounded<R: Copy>(tab: &str, tiles: &Vec<TileChunk<R>>, placements: &Vec<Placement>) -> (r:
    Option<Result<Tile<R>, ParseError>>)
    requires
        placements.len() < usize::MAX,
    ensures
        outcome_view(r) == parse_tree(tab@, tiles@, placements@, (placements.len() + 1) as nat),
{
    let roots = children_of(tab, placements);
    proof {
        assert(roots@.map_values(|x: usize| x as int).len() == roots.len());
    }
    if roots.len() == 0 {
        Some(Err(ParseError::NoRoot))
    } else if roots.len() == 1 {
        assert(roots@.map_values(|x: usize| x as int)[0] == roots[0] as int);
        build(placements[roots[0]].tile.as_str(), tiles, placements, placements.len() + 1)
    } else {
        Some(Err(ParseError::MultipleRoots))
    }
}

/// Placements and tile bodies into a tree, rooted at the single tile placed on
/// `tab`. Children order by seq; placements on other scopes are ignored.
pub fn parse<R: Copy>(tab: &str, tiles: &Vec<TileChunk<R>>, placements: &Vec<Placement>) -> (r: Result<
    Tile<R>,
    ParseError,
>)
    requires
        placements.len() < usize::MAX,
        parse_ends(tab@, tiles@, placements@),
    ensures
        outcome_view(Some(r)) == parse_tree(tab@, tiles@, placements@, (placements.len() + 1) as nat),
{
    match parse_bounded(tab, tiles, placements) {
        Some(r) => r,
        None => {
            assert(false);
            Err(ParseError::NoRoot)
        },
    }
}

/// Indices whose placements' seqs never decrease.
pub open spec fn seq_ordered(idx: Seq<int>, ps: Seq<Placement>) -> bool {
    forall|a: int, b: int| 0 <= a < b < idx.len() ==> ps[idx[a]].seq <= ps[idx[b]].seq
}

proof fn lemma_insert_members(sorted: Seq<int>, i: int, ps: Seq<Placement>)
    ensures
        forall|x: int| #[trigger] insert_by_seq(sorted, i, ps).contains(x) ==> x == i || sorted.contains(x),
    decreases sorted.len(),
{
    if sorted.len() > 0 && !(ps[sorted.last()].seq <= ps[i].seq) {
        lemma_insert_members(sorted.drop_last(), i, ps);
        let inner = insert_by_seq(sorted.drop_last(), i, ps);
        assert forall|x: int| #[trigger] inner.push(sorted.last()).contains(x) implies x == i || sorted.contains(x) by {
            let k = choose|k: int| 0 <= k < inner.push(sorted.last()).len() && inner.push(sorted.last())[k] == x;
            if k < inner.len() {
                assert(inner.contains(x));
                if sorted.drop_last().contains(x) {
                    let m = choose|m: int| 0 <= m < sorted.drop_last().len() && sorted.drop_last()[m] == x;
                    assert(sorted[m] == x);
                }
            } else {
                assert(sorted[sorted.len() - 1] == x);
            }
        }
    }
}

proof fn lemma_insert_ordered(sorted: Seq<int>, i: int, ps: Seq<Placement>)
    requires
        seq_ordered(sorted, ps),
    ensures
        seq_ordered(insert_by_seq(sorted, i, ps), ps),
    decreases sorted.len(),
{
    if sorted.len() > 0 {
        let last = sorted.last();
        if ps[last].seq <= ps[i].seq {
            let r = sorted.push(i);
            assert forall|a: int, b: int| 0 <= a < b < r.len() implies ps[r[a]].seq <= ps[r[b]].seq by {
                if b == sorted.len() {
                    if a < sorted.len() - 1 {
                        assert(ps[sorted[a]].seq <= ps[sorted[sorted.len() - 1]].seq);
                    }
                }
            }
        } else {
            let rest = sorted.drop_last();
            assert(seq_ordered(rest, ps));
            lemma_insert_ordered(rest, i, ps);
            lemma_insert_members(rest, i, ps);
            let inner = insert_by_seq(rest, i, ps);
            let r = inner.push(last);
            assert forall|a: int, b: int| 0 <= a < b < r.len() implies ps[r[a]].seq <= ps[r[b]].seq by {
                if b == inner.len() {
                    let x = inner[a];
                    assert(inner.contains(x));
                    if x != i {
                        assert(rest.contains(x));
                        let m = choose|m: int| 0 <= m < rest.len() && rest[m] == x;
                        assert(sorted[m] == x);
                        assert(ps[sorted[m]].seq <= ps[sorted[sorted.len() - 1]].seq);
                    }
                }
            }
        }
    }
}

proof fn lemma_by_seq_ordered(idx: Seq<int>, ps: Seq<Placement>)
    ensures
        seq_ordered(by_seq(idx, ps), ps),
    decreases idx.len(),
{
    if idx.len() > 0 {
        lemma_by_seq_ordered(idx.drop_last(), ps);
        lemma_insert_ordered(by_seq(idx.drop_last(), ps), idx.last(), ps);
    }
}

/// The children of a scope come in seq order: the seq-first child first.
pub proof fn children_come_in_seq_order(scope: Seq<char>, ps: Seq<Placement>)
    ensures
        seq_ordered(children(scope, ps), ps),
{
    lemma_by_seq_ordered(on_scope(scope, ps, ps.len() as int), ps);
}

impl<R: Copy> Tile<R> {
    /// A copy of the whole tree.
    pub fn copy_tree(&self) -> (t: Tile<R>)
        ensures
            t@ == self@,
        decreases self,
    {
        match self {
            Tile::Leaf { id } => Tile::Leaf { id: id.clone() },
            Tile::Split { id, direction, ratio, first, second } => {
                let f = (**first).copy_tree();
                let s = (**second).copy_tree();
                Tile::Split {
                    id: id.clone(),
                    direction: *direction,
                    ratio: *ratio,
                    first: Box::new(f),
                    second: Box::new(s),
                }
            },
        }
    }
}

} // verus!
