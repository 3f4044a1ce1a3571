//! The template engine's types, and the one call that context construction makes into it.
use crate::context::Context;
use handlebars::{Handlebars, RenderError};
use std::collections::HashMap;
use vstd::prelude::*;

verus! {

#[verifier::external_type_specification]
#[verifier::external_body]
pub struct ExHandlebars<'reg>(Handlebars<'reg>);

#[verifier::external_type_specification]
#[verifier::external_body]
pub struct ExRenderError(RenderError);

/// Relies on `handlebars::Registry::render_template`: renders `template` once, against
/// the pairs of `ctx` as a map from key to value. What comes out depends on the
/// engine's configuration and helpers, so nothing is claimed of it.
#[verifier::external_body]
pub(crate) fn render_fragment(engine: &Handlebars<'_>, template: &str, ctx: &Context) -> (r: Result<String, RenderError>)
{
    let data: HashMap<&String, &String> = ctx.pairs().iter().map(|p| (&p.0, &p.1)).collect();
    engine.render_template(template, &data)
}

} // verus!
