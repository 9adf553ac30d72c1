//! The query evaluator: walks the query trie beside the structural index and
//! fills one result slot per registered path with a zero-copy slice of the
//! record.

use vstd::prelude::*;

use crate::backend::Backend;
use crate::builder::IndexBuilder;
use crate::errors::Error;
use crate::index::{field_label, field_start, int_list, object_value_range, trim_ws_left,
    trim_ws_right, StructuralIndex};
use crate::model::{colon_list, last_quote, COMMA, LEFT_BRACE, RIGHT_BRACE};
use crate::pattern_tree::{PatternNode, PatternTree};
use crate::query::{find_child_spec, keys_unique, node_wf, QueryNode, QueryTree};
use crate::value::lexes;

verus! {

/// How the evaluator traverses a record: a full scan, or a replay of a
/// previously observed field ordering with the full scan as fallback.
#[derive(Clone, Copy, Debug, PartialEq, Eq, Structural)]
pub enum QueryParserMode {
    Basic,
    Speculative,
}

/// `v` is a contiguous piece of `s`.
pub open spec fn is_piece_of(v: Seq<u8>, s: Seq<u8>) -> bool {
    exists|a: int| 0 <= a && a + v.len() <= s.len() && v == #[trigger] s.subrange(a, a + v.len())
}


/// The slot views: each borrowed piece as its byte sequence.
pub open spec fn views(rs: Seq<Option<&[u8]>>) -> Seq<Option<Seq<u8>>> {
    Seq::new(
        rs.len(),
        |i: int|
            match rs[i] {
                Option::Some(p) => Option::Some(p@),
                Option::None => Option::None,
            },
    )
}

/// What the right-to-left field scan of one object level does to the result
/// slots, colon indices below `i` still to process: find each field's name,
/// and where it labels an edge of `node`, extract the value, check that it
/// lexes, fill the slot of the edge's path, and recurse into the subtree;
/// stop once every child matched. `None` is a malformed record.
/// What matching one field against the query edge `ch` does: bound the
/// value at the colon `c`, check that it lexes, fill the edge's slot, and
/// evaluate the subtree inside the value.
#[verifier::opaque]
pub open spec fn match_step(
    s: Seq<u8>,
    ch: QueryNode,
    c: int,
    end_cur: int,
    last: bool,
    results: Seq<Option<Seq<u8>>>,
    begin: int,
    end: int,
    l_max: int,
) -> Option<Seq<Option<Seq<u8>>>>
    decreases end - begin, 0int, 0int, 0int,
{
    if c + 1 > end_cur {
        Option::None
    } else {
        let vr = object_value_range(
            s,
            c + 1,
            end_cur,
            if last {
                RIGHT_BRACE
            } else {
                COMMA
            },
        );
        let piece = s.subrange(vr.0 as int, vr.1 as int);
        if !lexes(piece) {
            Option::None
        } else {
            let results1 = match ch.query_id {
                Option::Some(id) => if (id as int) < results.len() {
                    results.update(id as int, Some(piece))
                } else {
                    results
                },
                Option::None => results,
            };
            if ch.children@.len() > 0 {
                if vr.0 <= vr.1 && vr.1 - vr.0 < end - begin {
                    eval_node(s, ch, vr.0 as int, vr.1 as int, results1, l_max)
                } else {
                    Option::None
                }
            } else {
                Some(results1)
            }
        }
    }
}

#[verifier::opaque]
pub open spec fn scan_fields(
    s: Seq<u8>,
    node: QueryNode,
    cp: Seq<int>,
    i: int,
    end_cur: int,
    found: int,
    results: Seq<Option<Seq<u8>>>,
    begin: int,
    end: int,
    l_max: int,
) -> Option<Seq<Option<Seq<u8>>>>
    decreases end - begin, 1int, i, 0int,
{
    if i <= 0 {
        Some(results)
    } else {
        let j = i - 1;
        let fb = if j == 0 {
            begin
        } else {
            cp[j - 1]
        };
        let c = cp[j];
        let fsi = field_start(s, fb, c);
        if fsi < 0 {
            Option::None
        } else {
            match find_child_spec(node, field_label(s, fb, c)) {
                Option::None => scan_fields(
                    s,
                    node,
                    cp,
                    j,
                    fsi - 1,
                    found,
                    results,
                    begin,
                    end,
                    l_max,
                ),
                Option::Some(ch) => {
                    match match_step(
                        s,
                        ch,
                        c,
                        end_cur,
                        j == cp.len() - 1,
                        results,
                        begin,
                        end,
                        l_max,
                    ) {
                        Option::None => Option::None,
                        Option::Some(results2) => {
                            if found + 1 == node.children@.len() {
                                Some(results2)
                            } else {
                                scan_fields(
                                    s,
                                    node,
                                    cp,
                                    j,
                                    fsi - 1,
                                    found + 1,
                                    results2,
                                    begin,
                                    end,
                                    l_max,
                                )
                            }
                        },
                    }
                },
            }
        }
    }
}

/// One object level of the basic evaluation: the colons of `[begin, end)`
/// at the node's level, scanned right to left. `None` when the index was
/// not built deep enough, or the scan finds the record malformed.
#[verifier::opaque]
pub open spec fn eval_node(
    s: Seq<u8>,
    node: QueryNode,
    begin: int,
    end: int,
    results: Seq<Option<Seq<u8>>>,
    l_max: int,
) -> Option<Seq<Option<Seq<u8>>>>
    decreases end - begin, 2int, 0int, 0int,
{
    if node.level as int >= l_max {
        Option::None
    } else {
        let cp = colon_list(s, begin, end, node.level as int);
        scan_fields(s, node, cp, cp.len() as int, end, 0, results, begin, end, l_max)
    }
}

/// The whole basic evaluation of a record: trim it, demand a top-level
/// object with balanced delimiters, and scan from the trie root with every
/// slot empty.
pub open spec fn query_eval(s: Seq<u8>, root: QueryNode, num_paths: int, l_max: int) -> Option<
    Seq<Option<Seq<u8>>>,
> {
    let tb = crate::model::trim_left(s, 0, s.len() as int);
    let te = crate::model::trim_right(s, tb, s.len() as int);
    let t = s.subrange(tb, te);
    if tb >= te || t[0] != LEFT_BRACE {
        Option::None
    } else if !crate::model::delims_balanced(t) {
        Option::None
    } else {
        eval_node(
            t,
            root,
            0,
            t.len() as int,
            Seq::new(num_paths as nat, |i: int| Option::None),
            l_max,
        )
    }
}

/// The evaluator: an index builder, a query trie, and the optional pattern
/// cache of observed field orderings.
#[derive(Debug)]
pub struct QueryParser<B: Backend> {
    index_builder: IndexBuilder<B>,
    query_tree: QueryTree,
    pattern_trees: Vec<PatternTree>,
    save_patterns: bool,
    allow_fallback: bool,
}

impl<B: Backend> QueryParser<B> {
    /// The evaluator is usable once its builder and trie are.
    pub closed spec fn wf(&self) -> bool {
        &&& self.index_builder.wf()
        &&& node_wf(self.query_tree.root)
    }

    /// How many paths the underlying trie registers.
    pub closed spec fn num_paths_spec(&self) -> int {
        self.query_tree.paths@.len() as int
    }

    /// The root of the underlying trie.
    pub closed spec fn root_spec(&self) -> QueryNode {
        self.query_tree.root
    }

    /// The level the underlying builder resolves.
    pub closed spec fn level_of(&self) -> int {
        self.index_builder.spec_level() as int
    }

    /// Whether observed orderings are recorded.
    pub closed spec fn save_patterns_spec(&self) -> bool {
        self.save_patterns
    }

    /// Whether a failed replay falls back to the full scan.
    pub closed spec fn allow_fallback_spec(&self) -> bool {
        self.allow_fallback
    }

    /// Wrap a builder and a finished query trie.
    pub fn new(index_builder: IndexBuilder<B>, query_tree: QueryTree) -> (r: Self)
        requires
            index_builder.wf(),
            node_wf(query_tree.root),
        ensures
            r.wf(),
            r.num_paths_spec() == query_tree.paths@.len(),
            r.root_spec() == query_tree.root,
            r.level_of() == index_builder.spec_level(),
            r.save_patterns_spec() == false,
            r.allow_fallback_spec() == true,
    {
        let num_nodes = query_tree.num_nodes;
        let mut pattern_trees: Vec<PatternTree> = Vec::new();
        let mut i: usize = 0;
        while i < num_nodes
            invariant
                i <= num_nodes,
            decreases num_nodes - i,
        {
            pattern_trees.push(Default::default());
            i = i + 1;
        }
        QueryParser {
            index_builder,
            query_tree,
            pattern_trees,
            save_patterns: false,
            allow_fallback: true,
        }
    }

    /// Record observed field orderings for later speculative replays.
    pub fn save_patterns(&mut self, v: bool)
        ensures
            final(self).wf() == old(self).wf(),
            final(self).num_paths_spec() == old(self).num_paths_spec(),
            final(self).root_spec() == old(self).root_spec(),
            final(self).level_of() == old(self).level_of(),
            final(self).save_patterns_spec() == v,
            final(self).allow_fallback_spec() == old(self).allow_fallback_spec(),
    {
        self.save_patterns = v;
    }

    /// Allow a failed speculative replay to fall back to the full scan.
    pub fn allow_fallback(&mut self, v: bool)
        ensures
            final(self).wf() == old(self).wf(),
            final(self).num_paths_spec() == old(self).num_paths_spec(),
            final(self).root_spec() == old(self).root_spec(),
            final(self).level_of() == old(self).level_of(),
            final(self).save_patterns_spec() == old(self).save_patterns_spec(),
            final(self).allow_fallback_spec() == v,
    {
        self.allow_fallback = v;
    }

    /// Evaluate every registered path against `record`: one slot per path,
    /// `None` where the record lacks the field. Only objects can stand at
    /// the top level.
    pub fn parse<'s>(&mut self, record: &'s [u8], mode: QueryParserMode) -> (res: Result<
        Vec<Option<&'s [u8]>>,
        Error,
    >)
        requires
            old(self).wf(),
        ensures
            final(self).wf(),
            final(self).num_paths_spec() == old(self).num_paths_spec(),
            res matches Ok(v) ==> v@.len() == old(self).num_paths_spec(),
            res matches Ok(v) ==> forall|j: int|
                0 <= j < v@.len() ==> #[trigger] v@[j] is None || (v@[j] matches Some(piece)
                    && is_piece_of(piece@, record@)),
            ({
                let tb = crate::model::trim_left(record@, 0, record@.len() as int);
                let te = crate::model::trim_right(record@, tb, record@.len() as int);
                &&& (tb >= te || record@[tb] != LEFT_BRACE ==> res is Err)
                &&& (!crate::model::delims_balanced(record@.subrange(tb, te)) ==> res is Err)
            }),
            ({
                let out = query_eval(
                    record@,
                    old(self).root_spec(),
                    old(self).num_paths_spec(),
                    old(self).level_of(),
                );
                mode == QueryParserMode::Basic ==> {
                    &&& (res is Ok <==> out is Some)
                    &&& (res matches Ok(v) ==> Some(views(v@)) == out)
                    &&& (res matches Err(e) ==> e == Error::InvalidRecord)
                }
            }),
            res matches Err(e) ==> e == Error::InvalidRecord || e
                == Error::FailedSpeculativeParse,
            old(self).allow_fallback_spec() ==> (res matches Err(e) ==> e
                == Error::InvalidRecord),
    {
        let ghost qout = query_eval(
            record@,
            old(self).root_spec(),
            old(self).num_paths_spec(),
            old(self).level_of(),
        );
        let n0 = record.len();
        let b = trim_ws_left(record, 0, n0);
        let e = trim_ws_right(record, b, n0);
        let trimmed = vstd::slice::slice_subrange(record, b, e);
        if trimmed.len() == 0 || trimmed[0] != LEFT_BRACE {
            proof {
                assert(qout is None);
            }
            return Result::Err(Error::InvalidRecord);
        }
        let index = match self.index_builder.build(trimmed) {
            Result::Ok(i) => i,
            Result::Err(_) => {
                proof {
                    assert(qout is None);
                }
                return Result::Err(Error::InvalidRecord);
            },
        };
        let num_paths = self.query_tree.num_paths();
        let mut result: Vec<Option<&'s [u8]>> = Vec::new();
        let mut j: usize = 0;
        while j < num_paths
            invariant
                j <= num_paths,
                result@.len() == j,
                forall|k: int| 0 <= k < j ==> #[trigger] result@[k] is None,
            decreases num_paths - j,
        {
            result.push(Option::None);
            j = j + 1;
        }
        let tlen = trimmed.len();
        proof {
            assert(views(result@) =~= Seq::new(
                old(self).num_paths_spec() as nat,
                |i: int| Option::None,
            ));
            assert(qout == eval_node(
                trimmed@,
                old(self).root_spec(),
                0,
                tlen as int,
                views(result@),
                old(self).level_of(),
            ));
        }
        match mode {
            QueryParserMode::Basic => {
                match parse_basic(
                    &index,
                    0,
                    tlen,
                    self.query_tree.as_node(),
                    &mut result,
                    &mut self.pattern_trees,
                    self.save_patterns,
                ) {
                    Result::Ok(()) => {
                        proof {
                            assert(Some(views(result@)) == qout);
                        }
                    },
                    Result::Err(e) => {
                        proof {
                            assert(qout is None);
                        }
                        return Result::Err(e);
                    },
                }
            },
            QueryParserMode::Speculative => {
                let success = match parse_speculative(
                    &index,
                    0,
                    tlen,
                    self.query_tree.as_node(),
                    &mut result,
                    &self.pattern_trees,
                ) {
                    Result::Ok(s) => s,
                    Result::Err(e) => {
                        return Result::Err(e);
                    },
                };
                if !success {
                    if !self.allow_fallback {
                        return Result::Err(Error::FailedSpeculativeParse);
                    }
                    match parse_basic(
                        &index,
                        0,
                        tlen,
                        self.query_tree.as_node(),
                        &mut result,
                        &mut self.pattern_trees,
                        self.save_patterns,
                    ) {
                        Result::Ok(()) => {},
                        Result::Err(e) => {
                            return Result::Err(e);
                        },
                    }
                }
            },
        }
        proof {
            assert forall|k: int|
                0 <= k < result@.len() implies #[trigger] result@[k] is None || (
            result@[k] matches Some(piece) && is_piece_of(piece@, record@)) by {
                match result@[k] {
                    Option::Some(piece) => {
                        assert(is_piece_of(piece@, trimmed@));
                        let a = choose|a: int|
                            0 <= a && a + piece@.len() <= trimmed@.len() && piece@
                                == #[trigger] trimmed@.subrange(a, a + piece@.len());
                        assert(piece@ == record@.subrange(b + a, b + a + piece@.len())) by {
                            assert(trimmed@.subrange(a, a + piece@.len()) =~= record@.subrange(
                                b + a,
                                b + a + piece@.len(),
                            ));
                        }
                    },
                    Option::None => {},
                }
            }
        }
        Result::Ok(result)
    }
}

/// Scan the object at `record[begin..end]` right to left, filling the slots
/// of every path that runs through `node`; optionally record the ordering.
/// Match one field against the query edge `ch`: bound the value after the
/// colon at `c`, check that it lexes, fill the edge's slot, and scan the
/// subtree inside the value.
#[verifier::spinoff_prover]
#[verifier::rlimit(100)]
fn basic_match<'s>(
    index: &StructuralIndex<'s>,
    begin: usize,
    end: usize,
    ch: &QueryNode,
    c: usize,
    last: bool,
    end_cur: usize,
    results: &mut Vec<Option<&'s [u8]>>,
    pattern_trees: &mut Vec<PatternTree>,
    save_patterns: bool,
) -> (res: Result<(), Error>)
    requires
        index.wf(),
        node_wf(*ch),
        begin <= end <= index.record@.len(),
        1 <= end,
        begin <= c < end,
        end_cur <= end,
    ensures
        final(results)@.len() == old(results)@.len(),
        forall|j: int|
            0 <= j < final(results)@.len() ==> #[trigger] final(results)@[j] == old(results)@[j]
                || (final(results)@[j] matches Some(piece) && is_piece_of(
                piece@,
                index.record@,
            )),
        res matches Err(e) ==> e == Error::InvalidRecord,
        res is Ok <==> match_step(
            index.record@,
            *ch,
            c as int,
            end_cur as int,
            last,
            views(old(results)@),
            begin as int,
            end as int,
            index.level_spec(),
        ) is Some,
        res is Ok ==> Some(views(final(results)@)) == match_step(
            index.record@,
            *ch,
            c as int,
            end_cur as int,
            last,
            views(old(results)@),
            begin as int,
            end as int,
            index.level_spec(),
        ),
    decreases end - begin, 0int,
{
    let ghost s = index.record@;
    let ghost lmax = index.level_spec();
    let ghost out = match_step(
        s,
        *ch,
        c as int,
        end_cur as int,
        last,
        views(old(results)@),
        begin as int,
        end as int,
        lmax,
    );
    if c + 1 > end_cur {
        proof {
            assert(out is None) by {
                reveal_with_fuel(match_step, 1);
            }
        }
        return Result::Err(Error::InvalidRecord);
    }
    let (vsi, vei) = index.find_object_value(c + 1, end_cur, last);
    let ghost piece_spec = s.subrange(vsi as int, vei as int);
    proof {
        assert((vsi, vei) == object_value_range(s, c as int + 1, end_cur as int, if last {
            RIGHT_BRACE
        } else {
            COMMA
        }));
    }
    match crate::value::parse(index.substr(vsi, vei)) {
        Result::Ok(_) => {},
        Result::Err(_) => {
            proof {
                assert(!lexes(piece_spec));
                assert(out is None) by {
                    reveal_with_fuel(match_step, 1);
                }
            }
            return Result::Err(Error::InvalidRecord);
        },
    }
    let ghost before_write = views(results@);
    match ch.path_id() {
        Option::Some(id) => {
            if id < results.len() {
                let piece = index.substr(vsi, vei);
                proof {
                    assert(is_piece_of(piece@, index.record@)) by {
                        assert(piece@ == index.record@.subrange(vsi as int, vsi + piece@.len()));
                    }
                }
                results[id] = Option::Some(piece);
                proof {
                    assert(views(results@) =~= before_write.update(id as int, Some(piece_spec)));
                }
            }
        },
        Option::None => {},
    }
    let ghost results1 = views(results@);
    proof {
        assert(results1 == (match ch.query_id {
            Option::Some(id) => if (id as int) < before_write.len() {
                before_write.update(id as int, Some(piece_spec))
            } else {
                before_write
            },
            Option::None => before_write,
        }));
    }
    if !ch.is_leaf() {
        proof {
            assert(vsi >= c + 1 >= begin + 1);
            assert((vei as int) - (vsi as int) < end - begin);
        }
        match parse_basic(index, vsi, vei, ch, results, pattern_trees, save_patterns) {
            Result::Ok(()) => {
                proof {
                    assert(Some(views(results@)) == out) by {
                        reveal_with_fuel(match_step, 1);
                    }
                }
            },
            Result::Err(e) => {
                proof {
                    assert(eval_node(s, *ch, vsi as int, vei as int, results1, lmax) is None);
                    assert(out is None) by {
                        reveal_with_fuel(match_step, 1);
                    }
                }
                return Result::Err(e);
            },
        }
    } else {
        proof {
            assert(Some(results1) == out) by {
                reveal_with_fuel(match_step, 1);
            }
        }
    }
    Result::Ok(())
}

/// Scan the object at `record[begin..end]` right to left, filling the slots
/// of every path that runs through `node`; optionally record the ordering.
#[verifier::spinoff_prover]
#[verifier::rlimit(100)]
fn parse_basic<'s>(
    index: &StructuralIndex<'s>,
    begin: usize,
    end: usize,
    node: &QueryNode,
    results: &mut Vec<Option<&'s [u8]>>,
    pattern_trees: &mut Vec<PatternTree>,
    save_patterns: bool,
) -> (res: Result<(), Error>)
    requires
        index.wf(),
        node_wf(*node),
        begin <= end <= index.record@.len(),
        1 <= end,
    ensures
        final(results)@.len() == old(results)@.len(),
        forall|j: int|
            0 <= j < final(results)@.len() ==> #[trigger] final(results)@[j] == old(results)@[j]
                || (final(results)@[j] matches Some(piece) && is_piece_of(
                piece@,
                index.record@,
            )),
        res matches Err(e) ==> e == Error::InvalidRecord,
        node.level >= index.level_spec() ==> res is Err,
        res is Ok <==> eval_node(
            index.record@,
            *node,
            begin as int,
            end as int,
            views(old(results)@),
            index.level_spec(),
        ) is Some,
        res is Ok ==> Some(views(final(results)@)) == eval_node(
            index.record@,
            *node,
            begin as int,
            end as int,
            views(old(results)@),
            index.level_spec(),
        ),
    decreases end - begin, 1int,
{
    let ghost s = index.record@;
    let ghost lmax = index.level_spec();
    let ghost res0 = views(old(results)@);
    let ghost out = eval_node(s, *node, begin as int, end as int, res0, lmax);
    let rlen = index.record.len();
    let mut cp: Vec<usize> = Vec::new();
    if !index.colon_positions(begin, end, node.level(), &mut cp) {
        proof {
            reveal_with_fuel(eval_node, 1);
            assert(out is None);
        }
        return Result::Err(Error::InvalidRecord);
    }
    let ghost cpl = int_list(cp@);
    proof {
        assert forall|j: int| 0 <= j < cp@.len() implies begin <= #[trigger] cp@[j] < end by {
            assert(crate::model::colon_at_level(
                index.record@,
                node.level as int,
                cp@[j] as int,
            ));
        }
        assert((node.level as int) < lmax);
        assert(cpl == colon_list(s, begin as int, end as int, node.level as int));
        reveal_with_fuel(eval_node, 2);
        reveal_with_fuel(scan_fields, 2);
        assert(out == scan_fields(
            s,
            *node,
            cpl,
            cpl.len() as int,
            end as int,
            0,
            res0,
            begin as int,
            end as int,
            lmax,
        ));
    }
    let n = cp.len();
    let num_children = node.num_children();
    let mut pattern: Vec<(Vec<u8>, usize)> = Vec::new();
    let mut found: usize = 0;
    let mut end_cur = end;
    let mut i = n;
    while i > 0
        invariant
            index.wf(),
            node_wf(*node),
            begin <= end <= index.record@.len(),
            s == index.record@,
            lmax == index.level_spec(),
            res0 == views(old(results)@),
            rlen == index.record@.len(),
            i <= n,
            n == cp@.len(),
            cpl == int_list(cp@),
            end_cur <= end,
            num_children == node.children@.len(),
            (node.level as int) < index.level_spec(),
            forall|j: int| 0 <= j < n ==> begin <= #[trigger] cp@[j] < end,
            forall|j: int| 0 <= j && j + 1 < n ==> #[trigger] cp@[j] < cp@[j + 1],
            found <= n - i,
            results@.len() == old(results)@.len(),
            out == eval_node(s, *node, begin as int, end as int, res0, lmax),
            forall|j: int|
                0 <= j < results@.len() ==> #[trigger] results@[j] == old(results)@[j] || (
                results@[j] matches Some(piece) && is_piece_of(piece@, index.record@)),
            out == scan_fields(
                s,
                *node,
                cpl,
                i as int,
                end_cur as int,
                found as int,
                views(results@),
                begin as int,
                end as int,
                lmax,
            ),
        decreases i,
    {
        i = i - 1;
        let ghost jj = i as int;
        let ghost fb_spec = if jj == 0 {
            begin as int
        } else {
            cpl[jj - 1]
        };
        let ghost c_spec = cpl[jj];
        let fb = if i == 0 {
            begin
        } else {
            cp[i - 1]
        };
        proof {
            assert(fb as int == fb_spec);
            assert(cp@[jj] as int == c_spec);
        }
        let (field, fsi) = match index.find_object_field(fb, cp[i]) {
            Result::Ok(p) => p,
            Result::Err(e) => {
                proof {
                    assert(field_start(s, fb_spec, c_spec) < 0);
                    assert(out is None) by {
                        reveal_with_fuel(scan_fields, 1);
                    }
                }
                return Result::Err(e);
            },
        };
        proof {
            assert(fsi as int == field_start(s, fb_spec, c_spec));
            assert(field@ == field_label(s, fb_spec, c_spec));
            assert(keys_unique(node.children@));
        }
        match node.find_child(field.as_raw_str()) {
            Option::Some(ch) => {
                proof {
                    assert(find_child_spec(*node, field_label(s, fb_spec, c_spec)) == Some(
                        *ch,
                    ));
                    let ci = choose|ci: int|
                        0 <= ci < node.children@.len() && (#[trigger] node.children@[ci].name)@
                            == field@ && *ch == node.children@[ci].node;
                    assert(node_wf(*ch));
                }
                let ghost before_match = views(results@);
                match basic_match(
                    index,
                    begin,
                    end,
                    ch,
                    cp[i],
                    i == n - 1,
                    end_cur,
                    results,
                    pattern_trees,
                    save_patterns,
                ) {
                    Result::Ok(()) => {},
                    Result::Err(e) => {
                        proof {
                            assert(out is None) by {
                                reveal_with_fuel(scan_fields, 1);
                            }
                        }
                        return Result::Err(e);
                    },
                }
                proof {
                    assert(Some(views(results@)) == match_step(
                        s,
                        *ch,
                        c_spec,
                        end_cur as int,
                        jj == cpl.len() - 1,
                        before_match,
                        begin as int,
                        end as int,
                        lmax,
                    ));
                    assert(scan_fields(
                        s,
                        *node,
                        cpl,
                        jj,
                        fsi as int - 1,
                        found as int + 1,
                        views(results@),
                        begin as int,
                        end as int,
                        lmax,
                    ) == out || (found as int + 1 == node.children@.len() && out == Some(
                        views(results@),
                    ))) by {
                        reveal_with_fuel(scan_fields, 1);
                    }
                }
                pattern.insert(0, (vstd::slice::slice_to_vec(field.as_raw_str()), i));
                found = found + 1;
                if found == num_children {
                    if save_patterns && node.node_id < pattern_trees.len() {
                        let node_id = node.node_id;
                        pattern_trees[node_id].append(pattern);
                    }
                    proof {
                        assert(out == Some(views(results@))) by {
                            reveal_with_fuel(scan_fields, 1);
                        }
                    }
                    return Result::Ok(());
                }
            },
            Option::None => {
                proof {
                    assert(find_child_spec(*node, field_label(s, fb_spec, c_spec)) is None);
                    assert(scan_fields(
                        s,
                        *node,
                        cpl,
                        jj,
                        fsi as int - 1,
                        found as int,
                        views(results@),
                        begin as int,
                        end as int,
                        lmax,
                    ) == out) by {
                        reveal_with_fuel(scan_fields, 1);
                    }
                }
            },
        }
        end_cur = fsi - 1;
    }
    proof {
        reveal_with_fuel(scan_fields, 1);
        assert(out == Some(views(results@)));
    }
    Result::Ok(())
}

/// Replay the most-seen field ordering recorded under `node`; `Ok(true)`
/// only when a whole recorded ordering matched.
fn parse_speculative<'s>(
    index: &StructuralIndex<'s>,
    begin: usize,
    end: usize,
    node: &QueryNode,
    results: &mut Vec<Option<&'s [u8]>>,
    pattern_trees: &Vec<PatternTree>,
) -> (res: Result<bool, Error>)
    requires
        index.wf(),
        node_wf(*node),
        begin <= end <= index.record@.len(),
        1 <= end,
    ensures
        final(results)@.len() == old(results)@.len(),
        forall|j: int|
            0 <= j < final(results)@.len() ==> #[trigger] final(results)@[j] == old(results)@[j]
                || (final(results)@[j] matches Some(piece) && is_piece_of(
                piece@,
                index.record@,
            )),
        res matches Err(e) ==> e == Error::InvalidRecord,
    decreases end - begin,
{
    let rlen = index.record.len();
    let mut cp: Vec<usize> = Vec::new();
    if !index.colon_positions(begin, end, node.level(), &mut cp) {
        return Result::Err(Error::InvalidRecord);
    }
    proof {
        assert forall|j: int| 0 <= j < cp@.len() implies begin <= #[trigger] cp@[j] < end by {
            assert(crate::model::colon_at_level(
                index.record@,
                node.level as int,
                cp@[j] as int,
            ));
        }
    }
    let n = cp.len();
    if node.node_id >= pattern_trees.len() {
        return Result::Ok(false);
    }
    let mut pattern_node: &PatternNode = pattern_trees[node.node_id].root_node();
    let mut at_root = true;
    let mut steps: usize = 0;
    loop
        invariant
            steps <= n,
            index.wf(),
            node_wf(*node),
            begin <= end <= index.record@.len(),
            rlen == index.record@.len(),
            n == cp@.len(),
            forall|j: int| 0 <= j < n ==> begin <= #[trigger] cp@[j] < end,
            forall|j: int| 0 <= j && j + 1 < n ==> #[trigger] cp@[j] < cp@[j + 1],
            results@.len() == old(results)@.len(),
            forall|j: int|
                0 <= j < results@.len() ==> #[trigger] results@[j] == old(results)@[j] || (
                results@[j] matches Some(piece) && is_piece_of(piece@, index.record@)),
        ensures
            results@.len() == old(results)@.len(),
            forall|j: int|
                0 <= j < results@.len() ==> #[trigger] results@[j] == old(results)@[j] || (
                results@[j] matches Some(piece) && is_piece_of(piece@, index.record@)),
        decreases n - steps,
    {
        if pattern_node.is_leaf() {
            break ;
        }
        if steps >= n {
            // a replay longer than the record's colon count cannot stand for
            // a real ordering; give up and let the caller fall back
            return Result::Ok(false);
        }
        steps = steps + 1;
        let kids = pattern_node.children.len();
        let mut matched = false;
        let mut success = false;
        let mut next: usize = 0;
        let mut k: usize = 0;
        while k < kids && !matched
            invariant
                index.wf(),
                node_wf(*node),
                begin <= end <= index.record@.len(),
                rlen == index.record@.len(),
                n == cp@.len(),
                forall|j: int| 0 <= j < n ==> begin <= #[trigger] cp@[j] < end,
                forall|j: int| 0 <= j && j + 1 < n ==> #[trigger] cp@[j] < cp@[j + 1],
                kids == pattern_node.children@.len(),
                k <= kids,
                matched ==> next < kids,
                results@.len() == old(results)@.len(),
                forall|j: int|
                    0 <= j < results@.len() ==> #[trigger] results@[j] == old(results)@[j] || (
                    results@[j] matches Some(piece) && is_piece_of(piece@, index.record@)),
            decreases kids - k + (if matched { 0int } else { 1int }),
        {
            let child = &pattern_node.children[k];
            let i = child.position();
            if i >= n {
                k = k + 1;
                continue ;
            }
            let fb = if i == 0 {
                begin
            } else {
                cp[i - 1]
            };
            let (field, _fsi) = match index.find_object_field(fb, cp[i]) {
                Result::Ok(p) => p,
                Result::Err(e) => {
                    return Result::Err(e);
                },
            };
            if crate::query::bytes_eq(field.as_raw_str(), child.field()) {
                matched = true;
                next = k;
                let ch_node = match node.find_child(field.as_raw_str()) {
                    Option::Some(c) => c,
                    Option::None => {
                        // the cache speaks of a field the query tree lacks
                        return Result::Ok(false);
                    },
                };
                proof {
                    let ci = choose|ci: int|
                        0 <= ci < node.children@.len() && (#[trigger] node.children@[ci].name)@
                            == field@ && *ch_node == node.children@[ci].node;
                    assert(node_wf(*ch_node));
                }
                let scope_end = if i == n - 1 {
                    end
                } else {
                    let (_f2, fsi2) = match index.find_object_field(cp[i], cp[i + 1]) {
                        Result::Ok(p) => p,
                        Result::Err(e) => {
                            return Result::Err(e);
                        },
                    };
                    fsi2 - 1
                };
                if cp[i] + 1 > scope_end {
                    return Result::Err(Error::InvalidRecord);
                }
                let (vsi, vei) = index.find_object_value(cp[i] + 1, scope_end, i == n - 1);
                match crate::value::parse(index.substr(vsi, vei)) {
                    Result::Ok(_) => {},
                    Result::Err(_) => {
                        return Result::Err(Error::InvalidRecord);
                    },
                }
                match ch_node.path_id() {
                    Option::Some(id) => {
                        if id < results.len() {
                            let piece = index.substr(vsi, vei);
                            proof {
                                assert(is_piece_of(piece@, index.record@)) by {
                                    assert(piece@ == index.record@.subrange(
                                        vsi as int,
                                        vsi + piece@.len(),
                                    ));
                                }
                            }
                            results[id] = Option::Some(piece);
                        }
                    },
                    Option::None => {},
                }
                success = true;
                if !ch_node.is_leaf() {
                    let deep = match parse_speculative(
                        index,
                        vsi,
                        vei,
                        ch_node,
                        results,
                        pattern_trees,
                    ) {
                        Result::Ok(s) => s,
                        Result::Err(e) => {
                            return Result::Err(e);
                        },
                    };
                    if !deep {
                        success = false;
                    }
                }
            } else {
                k = k + 1;
            }
        }
        if !matched || !success {
            return Result::Ok(false);
        }
        pattern_node = &pattern_node.children[next];
        at_root = false;
    }
    Result::Ok(!at_root)
}

} // verus!
