//! The list rules: `Delimited`, a list of items separated by a delimiter,
//! and `Terminated`, a list of items each followed by a delimiter.

use vstd::prelude::*;
use vstd::std_specs::convert::FromSpec;
use vstd::string::StringExecFns;
use crate::lexer::Token;
use crate::headline;
use crate::join_lexemes;
use crate::joined;
use crate::label_or;
use crate::lemma_parts_stand;
use crate::make_headline;
use crate::option_view;
use crate::stands_at;
use crate::views;
use crate::Consuming;
use crate::Parse;
use crate::ParseBuffer;
use crate::ParseDisplay;
use crate::ParseError;
use crate::ParseErrorView;

verus! {

/// The text of a list rule's label: `kind`, the item's label and the
/// delimiter's label.
pub open spec fn list_label(kind: Seq<char>, item: Seq<char>, delimiter: Seq<char>) -> Seq<char> {
    kind + " Sequence of `"@ + item + "` by `"@ + delimiter + "`"@
}

/// Makes the label of a list rule.
fn make_list_label(kind: &str, item: String, delimiter: String) -> (label: String)
    ensures
        label@ == list_label(kind@, item@, delimiter@),
{
    let mut label = String::from_str(kind);
    label.append(" Sequence of `");
    label.append(item.as_str());
    label.append("` by `");
    label.append(delimiter.as_str());
    label.append("`");
    label
}

/// The lines of the items of a list, each rendered at `depth` under its own
/// label.
pub open spec fn items_rendering<E: ParseDisplay, X>(items: Seq<(E, X)>, depth: nat) -> Seq<
    Seq<char>,
>
    decreases items.len(),
{
    if items.len() == 0 {
        Seq::empty()
    } else {
        items_rendering(items.drop_last(), depth) + items.last().0.rendering(depth, None)
    }
}

/// Renders the items of a list, one after the other.
fn display_items<E: ParseDisplay, X>(items: &Vec<(E, X)>, depth: usize) -> (lines: Vec<String>)
    requires
        depth + E::depth_below() <= usize::MAX,
    ensures
        views(lines@) == items_rendering(items@, depth as nat),
{
    let mut lines: Vec<String> = Vec::new();
    let mut i: usize = 0;
    assert(items@.take(0) =~= Seq::<(E, X)>::empty());
    assert(views(lines@) =~= Seq::<Seq<char>>::empty());
    while i < items.len()
        invariant
            i <= items.len(),
            depth + E::depth_below() <= usize::MAX,
            views(lines@) == items_rendering(items@.take(i as int), depth as nat),
        decreases items.len() - i,
    {
        let ghost before = lines@;
        let mut more = items[i].0.display(depth, None);
        let ghost added = more@;
        lines.append(&mut more);
        proof {
            assert(items@.take(i + 1).drop_last() =~= items@.take(i as int));
            assert(items@.take(i + 1).last() == items@[i as int]);
            assert(views(lines@) =~= views(before) + views(added));
        }
        i += 1;
    }
    assert(items@.take(i as int) =~= items@);
    lines
}

/// The header line of a rendered list followed by its items, one level
/// deeper.
fn display_list<E: ParseDisplay, X>(
    items: &Vec<(E, X)>,
    depth: usize,
    label: String,
    signature: String,
) -> (lines: Vec<String>)
    requires
        depth + 1 + E::depth_below() <= usize::MAX,
    ensures
        views(lines@) == seq![headline(depth as nat, label@, signature@)] + items_rendering(
            items@,
            (depth + 1) as nat,
        ),
{
    let mut lines: Vec<String> = Vec::new();
    lines.push(make_headline(depth, label.as_str(), signature.as_str()));
    let ghost before = lines@;
    let mut more = display_items(items, depth + 1);
    let ghost added = more@;
    lines.append(&mut more);
    assert(views(lines@) =~= views(before) + views(added));
    assert(views(before) =~= seq![headline(depth as nat, label@, signature@)]);
    lines
}

/// A list of items separated by a delimiter: `e d e d e`.
///
/// A delimiter that no item follows is an error.
#[derive(Clone, Debug)]
pub struct Delimited<E, D> {
    items: Vec<(E, Option<D>)>,
}

impl<E, D> View for Delimited<E, D> {
    type V = Seq<(E, Option<D>)>;

    closed spec fn view(&self) -> Seq<(E, Option<D>)> {
        self.items@
    }
}

/// The tokens under the items of a delimited list, in source order.
pub open spec fn delimited_leaves<E: ParseDisplay, D: ParseDisplay>(
    items: Seq<(E, Option<D>)>,
) -> Seq<(Token, String)>
    decreases items.len(),
{
    if items.len() == 0 {
        Seq::empty()
    } else {
        delimited_leaves(items.drop_last()) + items.last().0.leaves() + items.last().1.leaves()
    }
}

/// Whether every item and delimiter has its rule's shape, and exactly the
/// last item has no delimiter.
pub open spec fn delimited_shaped<E: ParseDisplay, D: ParseDisplay>(
    items: Seq<(E, Option<D>)>,
) -> bool {
    forall|i: int|
        0 <= i < items.len() ==> {
            &&& (#[trigger] items[i]).0.shaped()
            &&& items[i].1.shaped()
            &&& (items[i].1 is Some <==> i < items.len() - 1)
        }
}

/// What parsing a delimited list at `position` comes to. An item that fails
/// ends the list only where the list is still empty (`first`); behind a
/// delimiter it is an error. A delimiter that fails ends the list.
pub open spec fn delimited_outcome<E: Parse + ParseDisplay, D: Consuming>(
    tokens: Seq<(Token, String)>,
    position: int,
    first: bool,
) -> Result<int, ParseErrorView>
    decreases tokens.len() - position,
    when 0 <= position <= tokens.len()
    via delimited_outcome_decreases::<E, D>
{
    match E::outcome(tokens, position) {
        Err(e) => if first {
            Ok(position)
        } else {
            Err(
                ParseErrorView::InList {
                    list: list_label("Delimited"@, E::label(), D::label()),
                    cause: Box::new(e),
                },
            )
        },
        Ok(after_item) => match D::outcome(tokens, after_item) {
            Err(_) => Ok(after_item),
            Ok(after_delimiter) => delimited_outcome::<E, D>(tokens, after_delimiter, false),
        },
    }
}

/// The list is read on only behind a delimiter, which has consumed a token.
#[via_fn]
proof fn delimited_outcome_decreases<E: Parse + ParseDisplay, D: Consuming>(
    tokens: Seq<(Token, String)>,
    position: int,
    first: bool,
) {
    E::lemma_outcome_in_bounds(tokens, position);
    if let Ok(after_item) = E::outcome(tokens, position) {
        D::lemma_outcome_in_bounds(tokens, after_item);
        D::lemma_outcome_advances(tokens, after_item);
    }
}

/// How many items a delimited list that is parsed at `position` has.
pub open spec fn delimited_count<E: Parse + ParseDisplay, D: Consuming>(
    tokens: Seq<(Token, String)>,
    position: int,
) -> nat
    decreases tokens.len() - position,
    when 0 <= position <= tokens.len()
    via delimited_count_decreases::<E, D>
{
    match E::outcome(tokens, position) {
        Err(_) => 0,
        Ok(after_item) => match D::outcome(tokens, after_item) {
            Err(_) => 1,
            Ok(after_delimiter) => 1 + delimited_count::<E, D>(tokens, after_delimiter),
        },
    }
}

/// Items are counted on only behind a delimiter, which has consumed a
/// token.
#[via_fn]
proof fn delimited_count_decreases<E: Parse + ParseDisplay, D: Consuming>(
    tokens: Seq<(Token, String)>,
    position: int,
) {
    E::lemma_outcome_in_bounds(tokens, position);
    if let Ok(after_item) = E::outcome(tokens, position) {
        D::lemma_outcome_in_bounds(tokens, after_item);
        D::lemma_outcome_advances(tokens, after_item);
    }
}

/// A successfully parsed delimited list ends inside the token stream.
pub proof fn lemma_delimited_outcome_in_bounds<E: Parse + ParseDisplay, D: Consuming>(
    tokens: Seq<(Token, String)>,
    position: int,
    first: bool,
)
    requires
        0 <= position <= tokens.len(),
    ensures
        delimited_outcome::<E, D>(tokens, position, first) matches Ok(end) ==> position <= end
            <= tokens.len(),
    decreases tokens.len() - position,
{
    E::lemma_outcome_in_bounds(tokens, position);
    if let Ok(after_item) = E::outcome(tokens, position) {
        D::lemma_outcome_in_bounds(tokens, after_item);
        D::lemma_outcome_advances(tokens, after_item);
        if let Ok(after_delimiter) = D::outcome(tokens, after_item) {
            lemma_delimited_outcome_in_bounds::<E, D>(tokens, after_delimiter, false);
        }
    }
}

/// Whether, inside a delimited list that ends at `end`, every item and
/// delimiter stops where the next part begins.
pub open spec fn delimited_parts_stop<E: Parse + ParseDisplay, D: Consuming>(
    items: Seq<(E, Option<D>)>,
    tokens: Seq<(Token, String)>,
    end: int,
) -> bool
    decreases items.len(),
{
    if items.len() == 0 {
        true
    } else {
        let item = items.last().0;
        let delimiter = items.last().1;
        let item_end = end - delimiter.leaves().len();
        &&& delimiter matches Some(d) ==> D::stops_at(d, tokens, end)
        &&& E::stops_at(item, tokens, item_end)
        &&& delimited_parts_stop::<E, D>(items.drop_last(), tokens, item_end - item.leaves().len())
    }
}

/// Whether every item of the list has its shape and a shaped delimiter.
pub open spec fn delimited_all_followed<E: ParseDisplay, D: ParseDisplay>(
    items: Seq<(E, Option<D>)>,
) -> bool {
    forall|i: int|
        0 <= i < items.len() ==> {
            &&& (#[trigger] items[i]).0.shaped()
            &&& items[i].1.shaped()
            &&& items[i].1 is Some
        }
}

/// Reading items that each have their delimiter leaves the rest of a
/// delimited list to be read behind them.
pub proof fn lemma_delimited_reads_items<E: Parse + ParseDisplay, D: Consuming>(
    items: Seq<(E, Option<D>)>,
    tokens: Seq<(Token, String)>,
    position: int,
    first: bool,
)
    requires
        delimited_all_followed(items),
        stands_at(delimited_leaves(items), tokens, position),
        delimited_parts_stop::<E, D>(items, tokens, position + delimited_leaves(items).len()),
    ensures
        delimited_outcome::<E, D>(tokens, position, first) == delimited_outcome::<E, D>(
            tokens,
            position + delimited_leaves(items).len(),
            first && items.len() == 0,
        ),
    decreases items.len(),
{
    if items.len() > 0 {
        let front = items.drop_last();
        let item = items.last().0;
        let delimiter = items.last().1;
        assert(items[items.len() - 1].1 is Some);
        let d = delimiter->Some_0;
        assert forall|i: int| 0 <= i < front.len() implies {
            &&& (#[trigger] front[i]).0.shaped()
            &&& front[i].1.shaped()
            &&& front[i].1 is Some
        } by {
            assert(front[i] == items[i]);
        }
        lemma_parts_stand(
            delimited_leaves(front) + item.leaves(),
            delimiter.leaves(),
            tokens,
            position,
        );
        lemma_parts_stand(delimited_leaves(front), item.leaves(), tokens, position);
        lemma_delimited_reads_items::<E, D>(front, tokens, position, first);
        let here = position + delimited_leaves(front).len();
        E::lemma_parses_back(item, tokens, here);
        D::lemma_parses_back(d, tokens, here + item.leaves().len());
    }
}

impl<E, D> Delimited<E, D> {
    /// The items of the list, each with the delimiter that follows it.
    pub fn items(&self) -> (items: &Vec<(E, Option<D>)>)
        ensures
            items@ == self@,
    {
        &self.items
    }
}

impl<E, D> From<Vec<(E, Option<D>)>> for Delimited<E, D> {
    /// A list made of the given items. It has the shape of a parsed list
    /// only where every item but the last has a delimiter.
    fn from(items: Vec<(E, Option<D>)>) -> (list: Self) {
        Delimited { items }
    }
}

impl<E, D> vstd::std_specs::convert::FromSpecImpl<Vec<(E, Option<D>)>> for Delimited<E, D> {
    open spec fn obeys_from_spec() -> bool {
        true
    }

    closed spec fn from_spec(items: Vec<(E, Option<D>)>) -> Self {
        Delimited { items }
    }
}

/// A list made from items holds those items.
pub proof fn lemma_delimited_from_items<E, D>(items: Vec<(E, Option<D>)>)
    ensures
        (<Delimited<E, D>>::from_spec(items))@ == items@,
{
}

impl<E: Parse + ParseDisplay, D: Consuming> ParseDisplay for Delimited<E, D> {
    open spec fn shaped(&self) -> bool {
        delimited_shaped(self@)
    }

    open spec fn leaves(&self) -> Seq<(Token, String)> {
        delimited_leaves(self@)
    }

    open spec fn label() -> Seq<char> {
        list_label("Delimited"@, E::label(), D::label())
    }

    open spec fn depth_below() -> nat {
        1 + E::depth_below()
    }

    open spec fn rendering(&self, depth: nat, label: Option<Seq<char>>) -> Seq<Seq<char>> {
        seq![headline(depth, label_or(label, Self::label()), joined(self.leaves()))]
            + items_rendering(self@, depth + 1)
    }

    fn lexemes(&self) -> (pairs: Vec<(Token, String)>) {
        let mut pairs: Vec<(Token, String)> = Vec::new();
        let mut i: usize = 0;
        assert(self@.take(0) =~= Seq::<(E, Option<D>)>::empty());
        while i < self.items.len()
            invariant
                i <= self.items.len(),
                pairs@ == delimited_leaves(self@.take(i as int)),
            decreases self.items.len() - i,
        {
            proof {
                assert(self@.take(i + 1).drop_last() =~= self@.take(i as int));
                assert(self@.take(i + 1).last() == self@[i as int]);
            }
            let mut of_item = self.items[i].0.lexemes();
            let mut of_delimiter = self.items[i].1.lexemes();
            pairs.append(&mut of_item);
            pairs.append(&mut of_delimiter);
            i += 1;
        }
        assert(self@.take(i as int) =~= self@);
        pairs
    }

    fn lexeme_signature(&self) -> (sigg: String) {
        join_lexemes(&self.lexemes())
    }

    fn parse_label() -> (label: String) {
        make_list_label("Delimited", E::parse_label(), D::parse_label())
    }

    fn display(&self, depth: usize, label: Option<String>) -> (lines: Vec<String>) {
        let text = match label {
            Some(given) => given,
            None => Self::parse_label(),
        };
        display_list(&self.items, depth, text, self.lexeme_signature())
    }
}

impl<E: Parse + ParseDisplay, D: Consuming> Parse for Delimited<E, D> {
    open spec fn outcome(tokens: Seq<(Token, String)>, position: int) -> Result<
        int,
        ParseErrorView,
    > {
        delimited_outcome::<E, D>(tokens, position, true)
    }

    proof fn lemma_outcome_in_bounds(tokens: Seq<(Token, String)>, position: int) {
        lemma_delimited_outcome_in_bounds::<E, D>(tokens, position, true);
    }

    open spec fn stops_at(node: Self, tokens: Seq<(Token, String)>, end: int) -> bool {
        &&& delimited_parts_stop::<E, D>(node@, tokens, end)
        &&& if node@.len() == 0 {
            E::outcome(tokens, end) is Err
        } else {
            D::outcome(tokens, end) is Err
        }
    }

    proof fn lemma_parses_back(node: Self, tokens: Seq<(Token, String)>, position: int) {
        let items = node@;
        if items.len() > 0 {
            let front = items.drop_last();
            let item = items.last().0;
            assert(items[items.len() - 1].1 is None);
            assert(items.last().1.leaves() =~= Seq::<(Token, String)>::empty());
            assert forall|i: int| 0 <= i < front.len() implies {
                &&& (#[trigger] front[i]).0.shaped()
                &&& front[i].1.shaped()
                &&& front[i].1 is Some
            } by {
                assert(front[i] == items[i]);
            }
            assert(delimited_leaves(items) =~= delimited_leaves(front) + item.leaves());
            lemma_parts_stand(delimited_leaves(front), item.leaves(), tokens, position);
            lemma_delimited_reads_items::<E, D>(front, tokens, position, true);
            E::lemma_parses_back(item, tokens, position + delimited_leaves(front).len());
        }
    }

    /// Reads items until one has no delimiter behind it.
    fn parse(buffer: &mut ParseBuffer) -> (r: Result<Self, ParseError>)
        ensures
            r matches Ok(list) ==> list@.len() == delimited_count::<E, D>(
                old(buffer).tokens(),
                old(buffer).position(),
            ),
    {
        let mut items: Vec<(E, Option<D>)> = Vec::new();
        let mut fork = buffer.fork();
        let mut first = true;
        let ghost tokens = buffer.tokens();
        let ghost start = buffer.position();
        assert(delimited_leaves(items@) =~= tokens.subrange(start, start));
        loop
            invariant
                *buffer == *old(buffer),
                tokens == buffer.tokens(),
                start == buffer.position(),
                fork.tokens() == tokens,
                0 <= start <= fork.position() <= tokens.len(),
                first ==> fork.position() == start && items@.len() == 0,
                delimited_outcome::<E, D>(tokens, start, true) == delimited_outcome::<E, D>(
                    tokens,
                    fork.position(),
                    first,
                ),
                delimited_leaves(items@) == tokens.subrange(start, fork.position()),
                items@.len() + delimited_count::<E, D>(tokens, fork.position()) == delimited_count::<
                    E,
                    D,
                >(tokens, start),
                forall|i: int|
                    0 <= i < items@.len() ==> {
                        &&& (#[trigger] items@[i]).0.shaped()
                        &&& items@[i].1.shaped()
                        &&& items@[i].1 is Some
                    },
            decreases tokens.len() - fork.position(),
        {
            let ghost here = fork.position();
            let ghost before = items@;
            proof {
                E::lemma_outcome_in_bounds(tokens, here);
            }
            let item = match E::parse(&mut fork) {
                Ok(item) => item,
                Err(cause) => {
                    if first {
                        assert(tokens.subrange(start, start) =~= Seq::<(Token, String)>::empty());
                        return Ok(Delimited { items });
                    }
                    return Err(
                        ParseError::InList { list: Self::parse_label(), cause: Box::new(cause) },
                    );
                },
            };
            let ghost after_item = fork.position();
            proof {
                D::lemma_outcome_in_bounds(tokens, after_item);
                D::lemma_outcome_advances(tokens, after_item);
            }
            match D::parse(&mut fork) {
                Ok(delimiter) => {
                    items.push((item, Some(delimiter)));
                    first = false;
                    proof {
                        assert(items@.drop_last() =~= before);
                        assert(delimited_leaves(items@) =~= tokens.subrange(
                            start,
                            fork.position(),
                        ));
                    }
                },
                Err(_) => {
                    items.push((item, None));
                    proof {
                        assert(items@.drop_last() =~= before);
                        assert(delimited_leaves(items@) =~= tokens.subrange(
                            start,
                            fork.position(),
                        ));
                    }
                    *buffer = fork;
                    return Ok(Delimited { items });
                },
            }
        }
    }
}

/// A list of items each followed by a delimiter: `e d e d`.
///
/// An item that no delimiter follows is an error.
#[derive(Clone, Debug)]
pub struct Terminated<E, D> {
    items: Vec<(E, D)>,
}

impl<E, D> View for Terminated<E, D> {
    type V = Seq<(E, D)>;

    closed spec fn view(&self) -> Seq<(E, D)> {
        self.items@
    }
}

/// The tokens under the items of a terminated list, in source order.
pub open spec fn terminated_leaves<E: ParseDisplay, D: ParseDisplay>(items: Seq<(E, D)>) -> Seq<
    (Token, String),
>
    decreases items.len(),
{
    if items.len() == 0 {
        Seq::empty()
    } else {
        terminated_leaves(items.drop_last()) + items.last().0.leaves() + items.last().1.leaves()
    }
}

/// Whether every item and delimiter has its rule's shape.
pub open spec fn terminated_shaped<E: ParseDisplay, D: ParseDisplay>(items: Seq<(E, D)>) -> bool {
    forall|i: int|
        0 <= i < items.len() ==> (#[trigger] items[i]).0.shaped() && items[i].1.shaped()
}

/// What parsing a terminated list at `position` comes to. An item that
/// fails ends the list; a delimiter that fails is an error.
pub open spec fn terminated_outcome<E: Parse + ParseDisplay, D: Consuming>(
    tokens: Seq<(Token, String)>,
    position: int,
) -> Result<int, ParseErrorView>
    decreases tokens.len() - position,
    when 0 <= position <= tokens.len()
    via terminated_outcome_decreases::<E, D>
{
    match E::outcome(tokens, position) {
        Err(_) => Ok(position),
        Ok(after_item) => match D::outcome(tokens, after_item) {
            Err(e) => Err(
                ParseErrorView::InList {
                    list: list_label("Terminated"@, E::label(), D::label()),
                    cause: Box::new(e),
                },
            ),
            Ok(after_delimiter) => terminated_outcome::<E, D>(tokens, after_delimiter),
        },
    }
}

/// The list is read on only behind a delimiter, which has consumed a token.
#[via_fn]
proof fn terminated_outcome_decreases<E: Parse + ParseDisplay, D: Consuming>(
    tokens: Seq<(Token, String)>,
    position: int,
) {
    E::lemma_outcome_in_bounds(tokens, position);
    if let Ok(after_item) = E::outcome(tokens, position) {
        D::lemma_outcome_in_bounds(tokens, after_item);
        D::lemma_outcome_advances(tokens, after_item);
    }
}

/// How many items a terminated list that is parsed at `position` has.
pub open spec fn terminated_count<E: Parse + ParseDisplay, D: Consuming>(
    tokens: Seq<(Token, String)>,
    position: int,
) -> nat
    decreases tokens.len() - position,
    when 0 <= position <= tokens.len()
    via terminated_count_decreases::<E, D>
{
    match E::outcome(tokens, position) {
        Err(_) => 0,
        Ok(after_item) => match D::outcome(tokens, after_item) {
            Err(_) => 0,
            Ok(after_delimiter) => 1 + terminated_count::<E, D>(tokens, after_delimiter),
        },
    }
}

/// Items are counted on only behind a delimiter, which has consumed a
/// token.
#[via_fn]
proof fn terminated_count_decreases<E: Parse + ParseDisplay, D: Consuming>(
    tokens: Seq<(Token, String)>,
    position: int,
) {
    E::lemma_outcome_in_bounds(tokens, position);
    if let Ok(after_item) = E::outcome(tokens, position) {
        D::lemma_outcome_in_bounds(tokens, after_item);
        D::lemma_outcome_advances(tokens, after_item);
    }
}

/// A successfully parsed terminated list ends inside the token stream.
pub proof fn lemma_terminated_outcome_in_bounds<E: Parse + ParseDisplay, D: Consuming>(
    tokens: Seq<(Token, String)>,
    position: int,
)
    requires
        0 <= position <= tokens.len(),
    ensures
        terminated_outcome::<E, D>(tokens, position) matches Ok(end) ==> position <= end
            <= tokens.len(),
    decreases tokens.len() - position,
{
    E::lemma_outcome_in_bounds(tokens, position);
    if let Ok(after_item) = E::outcome(tokens, position) {
        D::lemma_outcome_in_bounds(tokens, after_item);
        D::lemma_outcome_advances(tokens, after_item);
        if let Ok(after_delimiter) = D::outcome(tokens, after_item) {
            lemma_terminated_outcome_in_bounds::<E, D>(tokens, after_delimiter);
        }
    }
}

/// Whether, inside a terminated list that ends at `end`, every item and
/// delimiter stops where the next part begins.
pub open spec fn terminated_parts_stop<E: Parse + ParseDisplay, D: Consuming>(
    items: Seq<(E, D)>,
    tokens: Seq<(Token, String)>,
    end: int,
) -> bool
    decreases items.len(),
{
    if items.len() == 0 {
        true
    } else {
        let item = items.last().0;
        let delimiter = items.last().1;
        let item_end = end - delimiter.leaves().len();
        &&& D::stops_at(delimiter, tokens, end)
        &&& E::stops_at(item, tokens, item_end)
        &&& terminated_parts_stop::<E, D>(
            items.drop_last(),
            tokens,
            item_end - item.leaves().len(),
        )
    }
}

/// Reading the items of a terminated list leaves the rest of the list to
/// be read behind them.
pub proof fn lemma_terminated_reads_items<E: Parse + ParseDisplay, D: Consuming>(
    items: Seq<(E, D)>,
    tokens: Seq<(Token, String)>,
    position: int,
)
    requires
        terminated_shaped(items),
        stands_at(terminated_leaves(items), tokens, position),
        terminated_parts_stop::<E, D>(items, tokens, position + terminated_leaves(items).len()),
    ensures
        terminated_outcome::<E, D>(tokens, position) == terminated_outcome::<E, D>(
            tokens,
            position + terminated_leaves(items).len(),
        ),
    decreases items.len(),
{
    if items.len() > 0 {
        let front = items.drop_last();
        let item = items.last().0;
        let delimiter = items.last().1;
        assert(items[items.len() - 1].0.shaped());
        assert forall|i: int| 0 <= i < front.len() implies (#[trigger] front[i]).0.shaped()
            && front[i].1.shaped() by {
            assert(front[i] == items[i]);
        }
        lemma_parts_stand(
            terminated_leaves(front) + item.leaves(),
            delimiter.leaves(),
            tokens,
            position,
        );
        lemma_parts_stand(terminated_leaves(front), item.leaves(), tokens, position);
        lemma_terminated_reads_items::<E, D>(front, tokens, position);
        let here = position + terminated_leaves(front).len();
        E::lemma_parses_back(item, tokens, here);
        D::lemma_parses_back(delimiter, tokens, here + item.leaves().len());
    }
}

impl<E, D> Terminated<E, D> {
    /// The items of the list, each with its delimiter.
    pub fn items(&self) -> (items: &Vec<(E, D)>)
        ensures
            items@ == self@,
    {
        &self.items
    }
}

impl<E, D> From<Vec<(E, D)>> for Terminated<E, D> {
    /// A list made of the given items.
    fn from(items: Vec<(E, D)>) -> (list: Self) {
        Terminated { items }
    }
}

impl<E, D> vstd::std_specs::convert::FromSpecImpl<Vec<(E, D)>> for Terminated<E, D> {
    open spec fn obeys_from_spec() -> bool {
        true
    }

    closed spec fn from_spec(items: Vec<(E, D)>) -> Self {
        Terminated { items }
    }
}

/// A list made from items holds those items.
pub proof fn lemma_terminated_from_items<E, D>(items: Vec<(E, D)>)
    ensures
        (<Terminated<E, D>>::from_spec(items))@ == items@,
{
}

impl<E: Parse + ParseDisplay, D: Consuming> ParseDisplay for Terminated<E, D> {
    open spec fn shaped(&self) -> bool {
        terminated_shaped(self@)
    }

    open spec fn leaves(&self) -> Seq<(Token, String)> {
        terminated_leaves(self@)
    }

    open spec fn label() -> Seq<char> {
        list_label("Terminated"@, E::label(), D::label())
    }

    open spec fn depth_below() -> nat {
        1 + E::depth_below()
    }

    open spec fn rendering(&self, depth: nat, label: Option<Seq<char>>) -> Seq<Seq<char>> {
        seq![headline(depth, label_or(label, Self::label()), joined(self.leaves()))]
            + items_rendering(self@, depth + 1)
    }

    fn lexemes(&self) -> (pairs: Vec<(Token, String)>) {
        let mut pairs: Vec<(Token, String)> = Vec::new();
        let mut i: usize = 0;
        assert(self@.take(0) =~= Seq::<(E, D)>::empty());
        while i < self.items.len()
            invariant
                i <= self.items.len(),
                pairs@ == terminated_leaves(self@.take(i as int)),
            decreases self.items.len() - i,
        {
            proof {
                assert(self@.take(i + 1).drop_last() =~= self@.take(i as int));
                assert(self@.take(i + 1).last() == self@[i as int]);
            }
            let mut of_item = self.items[i].0.lexemes();
            let mut of_delimiter = self.items[i].1.lexemes();
            pairs.append(&mut of_item);
            pairs.append(&mut of_delimiter);
            i += 1;
        }
        assert(self@.take(i as int) =~= self@);
        pairs
    }

    fn lexeme_signature(&self) -> (sigg: String) {
        join_lexemes(&self.lexemes())
    }

    fn parse_label() -> (label: String) {
        make_list_label("Terminated", E::parse_label(), D::parse_label())
    }

    fn display(&self, depth: usize, label: Option<String>) -> (lines: Vec<String>) {
        let text = match label {
            Some(given) => given,
            None => Self::parse_label(),
        };
        display_list(&self.items, depth, text, self.lexeme_signature())
    }
}

impl<E: Parse + ParseDisplay, D: Consuming> Parse for Terminated<E, D> {
    open spec fn outcome(tokens: Seq<(Token, String)>, position: int) -> Result<
        int,
        ParseErrorView,
    > {
        terminated_outcome::<E, D>(tokens, position)
    }

    proof fn lemma_outcome_in_bounds(tokens: Seq<(Token, String)>, position: int) {
        lemma_terminated_outcome_in_bounds::<E, D>(tokens, position);
    }

    open spec fn stops_at(node: Self, tokens: Seq<(Token, String)>, end: int) -> bool {
        &&& terminated_parts_stop::<E, D>(node@, tokens, end)
        &&& E::outcome(tokens, end) is Err
    }

    proof fn lemma_parses_back(node: Self, tokens: Seq<(Token, String)>, position: int) {
        lemma_terminated_reads_items::<E, D>(node@, tokens, position);
    }

    /// Reads items, each with its delimiter, until no item follows.
    fn parse(buffer: &mut ParseBuffer) -> (r: Result<Self, ParseError>)
        ensures
            r matches Ok(list) ==> list@.len() == terminated_count::<E, D>(
                old(buffer).tokens(),
                old(buffer).position(),
            ),
    {
        let mut items: Vec<(E, D)> = Vec::new();
        let mut fork = buffer.fork();
        let ghost tokens = buffer.tokens();
        let ghost start = buffer.position();
        assert(terminated_leaves(items@) =~= tokens.subrange(start, start));
        loop
            invariant
                *buffer == *old(buffer),
                tokens == buffer.tokens(),
                start == buffer.position(),
                fork.tokens() == tokens,
                0 <= start <= fork.position() <= tokens.len(),
                terminated_outcome::<E, D>(tokens, start) == terminated_outcome::<E, D>(
                    tokens,
                    fork.position(),
                ),
                terminated_leaves(items@) == tokens.subrange(start, fork.position()),
                terminated_shaped(items@),
                items@.len() + terminated_count::<E, D>(tokens, fork.position())
                    == terminated_count::<E, D>(tokens, start),
            decreases tokens.len() - fork.position(),
        {
            let ghost here = fork.position();
            let ghost before = items@;
            proof {
                E::lemma_outcome_in_bounds(tokens, here);
            }
            let item = match E::parse(&mut fork) {
                Ok(item) => item,
                Err(_) => {
                    *buffer = fork;
                    return Ok(Terminated { items });
                },
            };
            let ghost after_item = fork.position();
            proof {
                D::lemma_outcome_in_bounds(tokens, after_item);
                D::lemma_outcome_advances(tokens, after_item);
            }
            match D::parse(&mut fork) {
                Ok(delimiter) => {
                    items.push((item, delimiter));
                    proof {
                        assert(items@.drop_last() =~= before);
                        assert(terminated_leaves(items@) =~= tokens.subrange(
                            start,
                            fork.position(),
                        ));
                    }
                },
                Err(cause) => {
                    return Err(
                        ParseError::InList { list: Self::parse_label(), cause: Box::new(cause) },
                    );
                },
            }
        }
    }
}

} // verus!
