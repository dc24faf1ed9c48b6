//! The whole run: scan, parse every source, resolve the types, build the
//! route model, emit. A run either gives the complete text or fails; it
//! never gives a part of the text.

use vstd::prelude::*;
use crate::emitter::{emission, emit, rendered, EmissionPlan, EmissionPlanView};
use crate::model::{
    views, RouteDecl, RouteDeclView, SourceUnit, SourceUnitView, SyncError, SyncErrorView, TypeDecl,
    TypeDeclView,
};
use crate::parser::{parse_source, parsed, Parsed, ParsedView};
use crate::resolver::{names_of, resolved_table, SymbolTable};
use crate::routes::{build_routes, built_routes};
use crate::scanner::{scan, scanned, ScanEntry, ScanEntryView};

verus! {

/// The declarations of the first `n` source units, those of each unit after
/// those of the units before it; or the error of the first unit below `n`
/// that does not parse.
pub open spec fn collected(units: Seq<SourceUnitView>, n: int) -> Result<ParsedView, SyncErrorView>
    decreases n,
{
    if n <= 0 {
        Ok(ParsedView { types: Seq::empty(), routes: Seq::empty() })
    } else {
        match collected(units, n - 1) {
            Err(e) => Err(e),
            Ok(acc) => match parsed(units[n - 1]) {
                Err(e) => Err(e),
                Ok(p) => Ok(
                    ParsedView { types: acc.types + p.types, routes: acc.routes + p.routes },
                ),
            },
        }
    }
}

/// A unit that does not parse fails every later bound.
pub proof fn lemma_collected_fails(units: Seq<SourceUnitView>, n: int, m: int)
    requires
        n <= m,
        collected(units, n) is Err,
    ensures
        collected(units, m) == collected(units, n),
    decreases m - n,
{
    if n < m {
        lemma_collected_fails(units, n, m - 1);
    }
}

/// The emission plan of the source units: `EmptyInput` where there is no
/// unit; else the first error of parsing, in the order of the units; else
/// that of type resolution; else that of the route model; else that of
/// emission; else the plan.
pub open spec fn planned(units: Seq<SourceUnitView>) -> Result<EmissionPlanView, SyncErrorView> {
    if units.len() == 0 {
        Err(SyncErrorView::EmptyInput)
    } else {
        match collected(units, units.len() as int) {
            Err(e) => Err(e),
            Ok(all) => match resolved_table(all.types) {
                Err(e) => Err(e),
                Ok(table) => match built_routes(names_of(table), all.routes) {
                    Err(e) => Err(e),
                    Ok(routes) => emission(table, routes),
                },
            },
        }
    }
}

/// The text that the source units compile to.
pub open spec fn compiled(units: Seq<SourceUnitView>) -> Result<Seq<u8>, SyncErrorView> {
    match planned(units) {
        Ok(plan) => Ok(rendered(plan)),
        Err(e) => Err(e),
    }
}

/// The text of a whole run over what was found under the input paths.
pub open spec fn processed(entries: Seq<ScanEntryView>) -> Result<Seq<u8>, SyncErrorView> {
    match scanned(entries) {
        Err(e) => Err(e),
        Ok(units) => compiled(units),
    }
}

/// Where the text of a run goes.
#[derive(Debug, PartialEq, Eq)]
pub enum Delivery {
    /// To standard output; the output file is not touched.
    Print(Vec<u8>),
    /// To the output file, in place of what it held.
    Write(Vec<u8>),
}

/// A delivery as a mathematical value.
pub enum DeliveryView {
    Print(Seq<u8>),
    Write(Seq<u8>),
}

impl View for Delivery {
    type V = DeliveryView;

    open spec fn view(&self) -> DeliveryView {
        match self {
            Delivery::Print(t) => DeliveryView::Print(t@),
            Delivery::Write(t) => DeliveryView::Write(t@),
        }
    }
}

/// Where the text goes: to standard output in debug mode, else to the
/// output file.
pub open spec fn delivered(text: Seq<u8>, debug: bool) -> DeliveryView {
    if debug {
        DeliveryView::Print(text)
    } else {
        DeliveryView::Write(text)
    }
}

/// Parses the source units, in order, and collects their declarations.
pub fn collect(units: &Vec<SourceUnit>) -> (r: Result<Parsed, SyncError>)
    ensures
        match r {
            Ok(all) => collected(views(units@), units.len() as int) == Ok::<
                ParsedView,
                SyncErrorView,
            >(all@),
            Err(e) => collected(views(units@), units.len() as int) == Err::<
                ParsedView,
                SyncErrorView,
            >(e@),
        },
{
    let ghost uv = views(units@);
    let mut types: Vec<TypeDecl> = Vec::new();
    let mut routes: Vec<RouteDecl> = Vec::new();
    let mut i: usize = 0;
    assert(views(types@) =~= Seq::<TypeDeclView>::empty());
    assert(views(routes@) =~= Seq::<RouteDeclView>::empty());
    while i < units.len()
        invariant
            i <= units.len(),
            uv == views(units@),
            collected(uv, i as int) == Ok::<ParsedView, SyncErrorView>(
                ParsedView { types: views(types@), routes: views(routes@) },
            ),
        decreases units.len() - i,
    {
        assert(uv[i as int] == units@[i as int]@);
        match parse_source(&units[i]) {
            Err(e) => {
                proof {
                    lemma_collected_fails(uv, i + 1, uv.len() as int);
                }
                return Err(e);
            },
            Ok(p) => {
                let ghost grown_types = views(types@) + p@.types;
                let ghost grown_routes = views(routes@) + p@.routes;
                let mut p = p;
                types.append(&mut p.types);
                routes.append(&mut p.routes);
                assert(views(types@) =~= grown_types);
                assert(views(routes@) =~= grown_routes);
            },
        }
        i += 1;
    }
    Ok(Parsed { types, routes })
}

/// Builds the emission plan of the source units.
pub fn plan(units: &Vec<SourceUnit>) -> (r: Result<EmissionPlan, SyncError>)
    ensures
        match r {
            Ok(p) => planned(views(units@)) == Ok::<EmissionPlanView, SyncErrorView>(p@),
            Err(e) => planned(views(units@)) == Err::<EmissionPlanView, SyncErrorView>(e@),
        },
{
    if units.len() == 0 {
        return Err(SyncError::EmptyInput);
    }
    let all = match collect(units) {
        Ok(all) => all,
        Err(e) => { return Err(e); },
    };
    let table = match SymbolTable::build(&all.types) {
        Ok(table) => table,
        Err(e) => { return Err(e); },
    };
    let routes = match build_routes(&table, &all.routes) {
        Ok(routes) => routes,
        Err(e) => { return Err(e); },
    };
    emit(&table, &routes)
}

/// Compiles the source units to the text of the client.
pub fn compile(units: &Vec<SourceUnit>) -> (r: Result<Vec<u8>, SyncError>)
    ensures
        match r {
            Ok(text) => compiled(views(units@)) == Ok::<Seq<u8>, SyncErrorView>(text@),
            Err(e) => compiled(views(units@)) == Err::<Seq<u8>, SyncErrorView>(e@),
        },
{
    match plan(units) {
        Ok(p) => Ok(p.render()),
        Err(e) => Err(e),
    }
}

/// Decides where the text of a run goes.
pub fn deliver(text: Vec<u8>, debug: bool) -> (r: Delivery)
    ensures
        r@ == delivered(text@, debug),
{
    if debug {
        Delivery::Print(text)
    } else {
        Delivery::Write(text)
    }
}

/// One whole run over what was found under the input paths. In debug mode
/// the text is to be printed, else written to the output file; a failed run
/// gives no text at all.
pub fn process(entries: &Vec<ScanEntry>, debug: bool) -> (r: Result<Delivery, SyncError>)
    ensures
        match r {
            Ok(d) => processed(views(entries@)) matches Ok(text) && d@ == delivered(text, debug),
            Err(e) => processed(views(entries@)) == Err::<Seq<u8>, SyncErrorView>(e@),
        },
{
    let units = match scan(entries) {
        Ok(units) => units,
        Err(e) => { return Err(e); },
    };
    match compile(&units) {
        Ok(text) => Ok(deliver(text, debug)),
        Err(e) => Err(e),
    }
}

} // verus!
