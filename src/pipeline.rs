//! The handler pipeline: a tree of filters, combinators and endpoints that
//! decides which endpoint, if any, handles an event, and with what data.
use vstd::prelude::*;
use crate::distribution::{ChatId, Update};

verus! {

/// A test on an event, as a filter applies it.
#[derive(Clone, Copy, Debug, PartialEq, Eq, Structural)]
pub enum Predicate {
    /// The event is of this kind.
    KindIs(u8),
    /// The event belongs to some chat.
    HasChat,
    /// The event belongs to this chat.
    ChatIs(ChatId),
    /// The event's payload is at least this value.
    PayloadAtLeast(i64),
}

/// A value that a filter draws out of an event and hands to the endpoint.
#[derive(Clone, Copy, Debug, PartialEq, Eq, Structural)]
pub enum Extractor {
    /// The chat's identifier; nothing is drawn from an event of no chat.
    ChatIdent,
    /// The event's payload.
    Payload,
    /// The payload, where it is not negative.
    NonNegativePayload,
}

/// A node of the pipeline.
#[derive(Debug)]
pub enum Handler {
    /// Runs the subtree where the predicate holds, else passes the event on.
    Filter(Predicate, Box<Handler>),
    /// Runs the subtree with the extracted value added to the context, where
    /// the extractor yields one, else passes the event on.
    FilterMap(Extractor, Box<Handler>),
    /// Runs the first; where it passes the event on, runs the second.
    Chain(Box<Handler>, Box<Handler>),
    /// Tries the first, then the second: the first that handles the event wins.
    Branch(Box<Handler>, Box<Handler>),
    /// Handles every event that reaches it, by the action with this number.
    Endpoint(u32),
}

/// What reaches an endpoint: its number, and the values the filters on its
/// path extracted, outermost first.
#[derive(Clone, Debug, PartialEq, Eq)]
pub struct Invocation {
    pub endpoint: u32,
    pub data: Vec<i64>,
}

/// The result of running the pipeline on one event.
#[derive(Clone, Debug, PartialEq, Eq)]
pub enum Outcome {
    /// An endpoint took the event and its action succeeded.
    Handled(Invocation),
    /// No endpoint took the event.
    Unhandled,
    /// An endpoint took the event and its action failed with this error.
    Failed(Invocation, u32),
}

/// The mathematical form of an outcome.
pub enum OutcomeView {
    Handled(u32, Seq<i64>),
    Unhandled,
    Failed(u32, Seq<i64>, u32),
}

impl View for Outcome {
    type V = OutcomeView;

    open spec fn view(&self) -> OutcomeView {
        match self {
            Outcome::Handled(i) => OutcomeView::Handled(i.endpoint, i.data@),
            Outcome::Unhandled => OutcomeView::Unhandled,
            Outcome::Failed(i, e) => OutcomeView::Failed(i.endpoint, i.data@, *e),
        }
    }
}

impl Predicate {
    pub open spec fn holds(self, ev: Update) -> bool {
        match self {
            Predicate::KindIs(k) => ev.kind == k,
            Predicate::HasChat => ev.chat.is_some(),
            Predicate::ChatIs(c) => ev.chat == Some(c),
            Predicate::PayloadAtLeast(v) => ev.payload >= v,
        }
    }

    /// Whether the predicate holds of the event.
    pub fn test(&self, ev: &Update) -> (r: bool)
        ensures
            r == self.holds(*ev),
    {
        match self {
            Predicate::KindIs(k) => ev.kind == *k,
            Predicate::HasChat => ev.chat.is_some(),
            Predicate::ChatIs(c) => match ev.chat {
                Some(d) => d.0 == c.0,
                None => false,
            },
            Predicate::PayloadAtLeast(v) => ev.payload >= *v,
        }
    }
}

impl Extractor {
    pub open spec fn value(self, ev: Update) -> Option<i64> {
        match self {
            Extractor::ChatIdent => match ev.chat {
                Some(c) => Some(c.0),
                None => None,
            },
            Extractor::Payload => Some(ev.payload),
            Extractor::NonNegativePayload => if ev.payload >= 0 {
                Some(ev.payload)
            } else {
                None
            },
        }
    }

    /// The value drawn from the event, if any.
    pub fn extract(&self, ev: &Update) -> (r: Option<i64>)
        ensures
            r == self.value(*ev),
    {
        match self {
            Extractor::ChatIdent => match ev.chat {
                Some(c) => Some(c.0),
                None => None,
            },
            Extractor::Payload => Some(ev.payload),
            Extractor::NonNegativePayload => if ev.payload >= 0 {
                Some(ev.payload)
            } else {
                None
            },
        }
    }
}

/// What the pipeline `h` does with `ev` when the filters above it extracted
/// `ctx`: the endpoint that takes it and the data it receives, or none.
pub open spec fn eval(h: Handler, ev: Update, ctx: Seq<i64>) -> Option<(u32, Seq<i64>)>
    decreases h,
{
    match h {
        Handler::Filter(p, c) => if p.holds(ev) {
            eval(*c, ev, ctx)
        } else {
            None
        },
        Handler::FilterMap(x, c) => match x.value(ev) {
            Some(v) => eval(*c, ev, ctx.push(v)),
            None => None,
        },
        Handler::Chain(a, b) => match eval(*a, ev, ctx) {
            Some(r) => Some(r),
            None => eval(*b, ev, ctx),
        },
        Handler::Branch(a, b) => match eval(*a, ev, ctx) {
            Some(r) => Some(r),
            None => eval(*b, ev, ctx),
        },
        Handler::Endpoint(id) => Some((id, ctx)),
    }
}

/// The outcome of routing `ev` through `h` from the root, before any action runs.
pub open spec fn route(h: Handler, ev: Update) -> OutcomeView {
    match eval(h, ev, Seq::empty()) {
        Some((id, data)) => OutcomeView::Handled(id, data),
        None => OutcomeView::Unhandled,
    }
}

impl Handler {
    /// A filter node.
    pub fn filter(p: Predicate, inner: Handler) -> (r: Handler)
        ensures
            r == Handler::Filter(p, Box::new(inner)),
    {
        Handler::Filter(p, Box::new(inner))
    }

    /// A filter node that extracts data for the subtree.
    pub fn filter_map(x: Extractor, inner: Handler) -> (r: Handler)
        ensures
            r == Handler::FilterMap(x, Box::new(inner)),
    {
        Handler::FilterMap(x, Box::new(inner))
    }

    /// `a`, then `b` where `a` passes the event on.
    pub fn chain(a: Handler, b: Handler) -> (r: Handler)
        ensures
            r == Handler::Chain(Box::new(a), Box::new(b)),
    {
        Handler::Chain(Box::new(a), Box::new(b))
    }

    /// `a` and `b` as alternatives, `a` first.
    pub fn branch(a: Handler, b: Handler) -> (r: Handler)
        ensures
            r == Handler::Branch(Box::new(a), Box::new(b)),
    {
        Handler::Branch(Box::new(a), Box::new(b))
    }

    /// An endpoint for the action numbered `id`.
    pub fn endpoint(id: u32) -> (r: Handler)
        ensures
            r == Handler::Endpoint(id),
    {
        Handler::Endpoint(id)
    }

    fn run(&self, ev: &Update, ctx: &Vec<i64>) -> (r: Option<Invocation>)
        ensures
            match eval(*self, *ev, ctx@) {
                Some((id, data)) => r.is_some() && r.unwrap().endpoint == id && r.unwrap().data@
                    == data,
                None => r.is_none(),
            },
        decreases self,
    {
        match self {
            Handler::Filter(p, c) => {
                if p.test(ev) {
                    c.run(ev, ctx)
                } else {
                    None
                }
            },
            Handler::FilterMap(x, c) => {
                match x.extract(ev) {
                    Some(v) => {
                        let mut inner = ctx.clone();
                        assert(inner@ =~= ctx@);
                        inner.push(v);
                        c.run(ev, &inner)
                    },
                    None => None,
                }
            },
            Handler::Chain(a, b) => {
                match a.run(ev, ctx) {
                    Some(r) => Some(r),
                    None => b.run(ev, ctx),
                }
            },
            Handler::Branch(a, b) => {
                match a.run(ev, ctx) {
                    Some(r) => Some(r),
                    None => b.run(ev, ctx),
                }
            },
            Handler::Endpoint(id) => {
                let data = ctx.clone();
                assert(data@ =~= ctx@);
                Some(Invocation { endpoint: *id, data })
            },
        }
    }

    /// Routes the event through the pipeline: `Handled` with the endpoint
    /// that takes it, or `Unhandled`. The endpoint's action has not run yet.
    pub fn execute(&self, ev: &Update) -> (r: Outcome)
        ensures
            r@ == route(*self, *ev),
            !(r is Failed),
    {
        let ctx: Vec<i64> = Vec::new();
        match self.run(ev, &ctx) {
            Some(inv) => Outcome::Handled(inv),
            None => Outcome::Unhandled,
        }
    }
}

/// Completes a routing outcome with the result of the endpoint's action:
/// a failed action turns `Handled` into `Failed`, which still ends the chain.
pub fn finish(routed: Outcome, action: Result<(), u32>) -> (r: Outcome)
    ensures
        match (routed@, action) {
            (OutcomeView::Handled(id, d), Err(e)) => r@ == OutcomeView::Failed(id, d, e),
            _ => r@ == routed@,
        },
{
    match (routed, action) {
        (Outcome::Handled(inv), Err(e)) => Outcome::Failed(inv, e),
        (o, _) => o,
    }
}

/// Chaining is associative: `(a then b) then c` routes every event exactly as
/// `a then (b then c)`, under any context.
pub proof fn lemma_chain_associative(a: Handler, b: Handler, c: Handler, ev: Update, ctx: Seq<i64>)
    ensures
        eval(Handler::Chain(Box::new(Handler::Chain(Box::new(a), Box::new(b))), Box::new(c)), ev, ctx)
            == eval(Handler::Chain(Box::new(a), Box::new(Handler::Chain(Box::new(b), Box::new(c)))), ev, ctx),
        route(Handler::Chain(Box::new(Handler::Chain(Box::new(a), Box::new(b))), Box::new(c)), ev)
            == route(Handler::Chain(Box::new(a), Box::new(Handler::Chain(Box::new(b), Box::new(c)))), ev),
{
    lemma_chain_associative_at(a, b, c, ev, ctx);
    lemma_chain_associative_at(a, b, c, ev, Seq::empty());
}

proof fn lemma_chain_associative_at(a: Handler, b: Handler, c: Handler, ev: Update, ctx: Seq<i64>)
    ensures
        eval(Handler::Chain(Box::new(Handler::Chain(Box::new(a), Box::new(b))), Box::new(c)), ev, ctx)
            == eval(Handler::Chain(Box::new(a), Box::new(Handler::Chain(Box::new(b), Box::new(c)))), ev, ctx),
{
    reveal_with_fuel(eval, 3);
}

/// First match wins: where `a` handles an event, `a` or-else `b` yields
/// exactly `a`'s outcome, whatever `b` would do.
pub proof fn lemma_branch_precedence(a: Handler, b: Handler, ev: Update)
    requires
        route(a, ev) is Handled,
    ensures
        route(Handler::Branch(Box::new(a), Box::new(b)), ev) == route(a, ev),
{
    reveal_with_fuel(eval, 2);
}

} // verus!
