//! Taking a context from the current span and attaching one to a span.
//!
//! The spans, the format that writes a context into a carrier and reads it
//! back, and the record of each span's parent and links belong to `tracing`,
//! `opentelemetry` and `tracing_opentelemetry`. The functions here fix which
//! calls are made, in which order, and on which carrier. What the calls do to
//! a span is recorded by the subscriber that tracks it, where no contract of
//! this library can see it.
//!
//! None of these functions fails. A carrier that holds no usable context makes
//! the span a root, or adds no link.
//!
//! Attach a context before the span has children: children that were recorded
//! earlier keep the lineage they had. A span that has been closed can no
//! longer be attached to; holding its handle keeps it open.

use vstd::prelude::*;
use crate::carrier::{OpenTelemetryContext, well_keyed};
use tracing_opentelemetry::OpenTelemetrySpanExt;
use opentelemetry::trace::TraceContextExt;

verus! {

/// A handle of `tracing` to a span.
#[verifier::external_type_specification]
#[verifier::external_body]
pub struct ExSpan(tracing::Span);

/// A context of `opentelemetry`: what a propagation format reads and writes.
#[verifier::external_type_specification]
#[verifier::external_body]
pub struct ExContext(opentelemetry::Context);

/// The identity of a span in `opentelemetry`: trace id, span id, flags, state.
#[verifier::external_type_specification]
#[verifier::external_body]
pub struct ExSpanContext(opentelemetry::trace::SpanContext);

/// Calls `tracing::Span::current`: the span that the calling execution context
/// is in. Which span that is depends on the caller's surroundings, so nothing
/// is claimed of the result.
#[verifier::external_body]
fn current_span() -> tracing::Span {
    tracing::Span::current()
}

/// Calls `OpenTelemetrySpanExt::context` on `span`. The result is read from the
/// subscriber that tracks the span, so nothing is claimed of it.
#[verifier::external_body]
fn context_of(span: &tracing::Span) -> opentelemetry::Context {
    span.context()
}

/// Calls `opentelemetry::global::get_text_map_propagator` and, on the format it
/// hands over, `TextMapPropagator::inject_context` with `cx` and `carrier`.
/// The format writes into the carrier through `Injector::set` alone; which
/// fields it writes is the format's choice, so nothing is claimed of them.
#[verifier::external_body]
fn inject(cx: &opentelemetry::Context, carrier: &mut OpenTelemetryContext) {
    opentelemetry::global::get_text_map_propagator(|format| format.inject_context(cx, carrier))
}

/// Calls `opentelemetry::global::get_text_map_propagator` and, on the format it
/// hands over, `TextMapPropagator::extract` with `carrier`. The format reads
/// the carrier through `Extractor::get` and `Extractor::keys`; where it finds
/// no usable context it returns the calling thread's current one. Nothing is
/// claimed of the result.
#[verifier::external_body]
fn extract(carrier: &OpenTelemetryContext) -> opentelemetry::Context {
    opentelemetry::global::get_text_map_propagator(|format| format.extract(carrier))
}

/// Calls `TraceContextExt::span` on `cx` and `SpanRef::span_context` on the
/// result, and clones it: the identity of the span that `cx` holds. Nothing is
/// claimed of the result.
#[verifier::external_body]
fn span_context_of(cx: &opentelemetry::Context) -> opentelemetry::trace::SpanContext {
    cx.span().span_context().clone()
}

/// Calls `OpenTelemetrySpanExt::set_parent` on `span` with `cx`. The parent is
/// recorded by the subscriber that tracks the span, out of this library's
/// sight; the handle itself is not changed.
#[verifier::external_body]
fn set_parent(span: &tracing::Span, cx: opentelemetry::Context) {
    span.set_parent(cx)
}

/// Calls `OpenTelemetrySpanExt::add_link` on `span` with `cx`. The link is
/// recorded by the subscriber that tracks the span, and only where `cx` is
/// valid; the handle itself is not changed.
#[verifier::external_body]
fn add_link(span: &tracing::Span, cx: opentelemetry::trace::SpanContext) {
    span.add_link(cx)
}

impl OpenTelemetryContext {
    /// Attaches this context to the current span, as its parent.
    ///
    /// If this context does not hold enough to make a parent of, the current
    /// thread's context is used, which by default is the empty one.
    pub fn attach_as_parent(&self) {
        let parent_cx = extract(self);
        let span = current_span();
        set_parent(&span, parent_cx);
    }

    /// Attaches this context to the current span, as a link.
    ///
    /// If this context does not hold a valid span identity, no link is added.
    pub fn attach_as_link(&self) {
        let cx = extract(self);
        let linked = span_context_of(&cx);
        let span = current_span();
        add_link(&span, linked);
    }

    /// Attaches this context to the given span, as its parent.
    ///
    /// If this context does not hold enough to make a parent of, the current
    /// thread's context is used, which by default is the empty one.
    pub fn attach_as_parent_to(&self, span: &mut tracing::Span)
        ensures
            *final(span) == *old(span),
    {
        let parent_cx = extract(self);
        set_parent(span, parent_cx);
    }

    /// Obtains a context from the current span.
    ///
    /// Whatever the format wrote, every key of the result is lowercased.
    pub fn obtain() -> (r: Self)
        ensures
            well_keyed(r@),
    {
        let mut context = Self::empty();
        let span = current_span();
        let cx = context_of(&span);
        inject(&cx, &mut context);
        proof {
            use_type_invariant(&context);
            context.lemma_inv_well_keyed();
        }
        context
    }
}

} // verus!
