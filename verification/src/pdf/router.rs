//! Two backends in one worker: pictures go to one, documents to the other, and
//! the second is only bound when a document asks for it.

use crate::images::archive::{refusal_of, unsupported_archive};
use crate::images::table::{resolution, resolve_source};
use crate::pdf::{BackendDocumentId, PdfError, PdfFault, RenderRequest};
use crate::text::{lossy_utf8, owned, push_str, text_from_utf8_lossy};
use std::collections::HashMap;
use vstd::prelude::*;

verus! {

/// Which backend a document lives in, and what it is called there.
#[derive(Debug, Clone, Copy, PartialEq, Eq, Structural)]
pub enum Route {
    Images(BackendDocumentId),
    Pdf(BackendDocumentId),
}

/// How a path is to be opened.
#[derive(Debug, Clone, Copy, PartialEq, Eq, Structural)]
pub enum OpenPlan {
    /// As an image document.
    Images,
    /// As a PDF document, for which the backend may have to be bound first.
    Pdf { bind: bool },
}

/// Sends each document to the backend that it lives in.
#[derive(Debug)]
pub struct Router {
    routes: HashMap<u64, Route>,
    next_id: u64,
    bound: bool,
}

/// The routes, as a value.
#[verifier::ext_equal]
pub struct Routes {
    pub routes: Map<u64, Route>,
    pub next_id: u64,
    pub bound: bool,
}

impl View for Router {
    type V = Routes;

    closed spec fn view(&self) -> Routes {
        Routes { routes: self.routes@, next_id: self.next_id, bound: self.bound }
    }
}

/// How a path is to be opened, or why it is not.
pub open spec fn plan_of(source: Seq<u8>, is_dir: bool, bound: bool) -> Result<OpenPlan, PdfFault> {
    match refusal_of(source) {
        Some(text) => Err(PdfFault::Open(lossy_utf8(source), text)),
        None => if resolution(source, is_dir) is Some {
            Ok(OpenPlan::Images)
        } else {
            Ok(OpenPlan::Pdf { bind: !bound })
        },
    }
}

/// Where a document lives, or why it cannot be reached.
pub open spec fn route_of(routes: Routes, document: BackendDocumentId) -> Result<Route, PdfFault> {
    if !routes.routes.dom().contains(document.0) {
        Err(PdfFault::Render("unknown document"@))
    } else {
        match routes.routes[document.0] {
            Route::Images(inner) => Ok(Route::Images(inner)),
            Route::Pdf(inner) => if routes.bound {
                Ok(Route::Pdf(inner))
            } else {
                Err(PdfFault::Unavailable("no PDF backend is bound in this worker"@))
            },
        }
    }
}

impl Router {
    /// A router with nothing open and nothing bound.
    pub fn new() -> (router: Router)
        ensures
            router@.routes == Map::<u64, Route>::empty(),
            router@.next_id == 0,
            !router@.bound,
    {
        let router = Router { routes: HashMap::new(), next_id: 0, bound: false };
        assert(router@.routes =~= Map::empty());
        router
    }

    /// Is the second backend bound?
    pub fn pdf_is_bound(&self) -> (bound: bool)
        ensures
            bound == self@.bound,
    {
        self.bound
    }

    /// Takes note that the second backend is bound.
    pub fn pdf_was_bound(&mut self)
        ensures
            final(self)@ == (Routes { bound: true, ..old(self)@ }),
    {
        self.bound = true;
    }

    /// Decides how a path is to be opened. An archive that is not read is
    /// refused by name, before anything could call it a damaged document.
    pub fn plan(&self, source: &[u8], is_dir: bool) -> (plan: Result<OpenPlan, PdfError>)
        ensures
            match plan {
                Ok(found) => plan_of(source@, is_dir, self@.bound) == Ok::<OpenPlan, PdfFault>(
                    found,
                ),
                Err(error) => plan_of(source@, is_dir, self@.bound) == Err::<OpenPlan, PdfFault>(
                    error@,
                ),
            },
    {
        if let Some(text) = unsupported_archive(source) {
            return Err(PdfError::Open { path: text_from_utf8_lossy(source), reason: owned(text) });
        }
        if resolve_source(source, is_dir).is_some() {
            Ok(OpenPlan::Images)
        } else {
            Ok(OpenPlan::Pdf { bind: !self.bound })
        }
    }

    /// An identity for a document that is about to be opened. It is used up even
    /// where opening then fails.
    pub fn reserve(&mut self) -> (document: BackendDocumentId)
        requires
            old(self)@.next_id < u64::MAX,
        ensures
            document.0 == old(self)@.next_id + 1,
            final(self)@ == (Routes { next_id: document.0, ..old(self)@ }),
    {
        self.next_id = self.next_id + 1;
        BackendDocumentId(self.next_id)
    }

    /// Takes note of where a document lives.
    pub fn enter(&mut self, document: BackendDocumentId, route: Route)
        ensures
            final(self)@.routes == old(self)@.routes.insert(document.0, route),
            final(self)@.next_id == old(self)@.next_id,
            final(self)@.bound == old(self)@.bound,
    {
        broadcast use vstd::std_specs::hash::group_hash_axioms;

        self.routes.insert(document.0, route);
    }

    /// Where a document lives.
    pub fn resolve(&self, document: BackendDocumentId) -> (route: Result<Route, PdfError>)
        ensures
            match route {
                Ok(found) => route_of(self@, document) == Ok::<Route, PdfFault>(found),
                Err(error) => route_of(self@, document) == Err::<Route, PdfFault>(error@),
            },
    {
        broadcast use vstd::std_specs::hash::group_hash_axioms;

        match self.routes.get(&document.0) {
            None => Err(PdfError::Render(owned("unknown document"))),
            Some(route) => match *route {
                Route::Images(inner) => Ok(Route::Images(inner)),
                Route::Pdf(inner) => if self.bound {
                    Ok(Route::Pdf(inner))
                } else {
                    Err(PdfError::Unavailable(owned("no PDF backend is bound in this worker")))
                },
            },
        }
    }

    /// Forgets a document; says where it has to be closed.
    pub fn close(&mut self, document: BackendDocumentId) -> (route: Option<Route>)
        ensures
            final(self)@.routes == old(self)@.routes.remove(document.0),
            final(self)@.next_id == old(self)@.next_id,
            final(self)@.bound == old(self)@.bound,
            route == (if !old(self)@.routes.dom().contains(document.0) {
                None
            } else {
                match old(self)@.routes[document.0] {
                    Route::Images(inner) => Some(Route::Images(inner)),
                    Route::Pdf(inner) => if old(self)@.bound {
                        Some(Route::Pdf(inner))
                    } else {
                        None
                    },
                }
            }),
    {
        broadcast use vstd::std_specs::hash::group_hash_axioms;

        let found = self.routes.remove(&document.0);
        match found {
            Some(Route::Images(inner)) => Some(Route::Images(inner)),
            Some(Route::Pdf(inner)) => if self.bound {
                Some(Route::Pdf(inner))
            } else {
                None
            },
            None => None,
        }
    }
}

/// What both backends are, for diagnostics.
pub fn versions(images: &str, pdf: Option<&str>) -> (text: String)
    ensures
        text@ == images@ + " / "@ + (match pdf {
            Some(version) => version@,
            None => "PDF backend not bound yet"@,
        }),
{
    let mut text = owned(images);
    push_str(&mut text, " / ");
    match pdf {
        Some(version) => push_str(&mut text, version),
        None => push_str(&mut text, "PDF backend not bound yet"),
    }
    text
}

/// The same request under the name that the document has in its backend.
pub fn rewritten(request: &RenderRequest, document: BackendDocumentId) -> (out: RenderRequest)
    ensures
        out == (RenderRequest { document, ..*request }),
{
    RenderRequest {
        document,
        page: request.page,
        region: request.region,
        width: request.width,
        height: request.height,
        with_annotations: request.with_annotations,
    }
}

/// A document that was admitted is reached where it lives until it is closed,
/// whatever else is opened or closed meanwhile, and not after that.
pub proof fn law_documents_do_not_disturb_each_other(
    routes: Routes,
    document: BackendDocumentId,
    other: BackendDocumentId,
    route: Route,
)
    requires
        document != other,
    ensures
        route_of(Routes { routes: routes.routes.insert(other.0, route), ..routes }, document)
            == route_of(routes, document),
        route_of(Routes { routes: routes.routes.remove(other.0), ..routes }, document) == route_of(
            routes,
            document,
        ),
        route_of(Routes { routes: routes.routes.remove(document.0), ..routes }, document) is Err,
{
}

/// Opening pictures never asks for the second backend to be bound, and it is
/// asked for once at most.
pub proof fn law_only_documents_bind(source: Seq<u8>, is_dir: bool, bound: bool)
    ensures
        resolution(source, is_dir) is Some ==> plan_of(source, is_dir, bound) != Ok::<
            OpenPlan,
            PdfFault,
        >(OpenPlan::Pdf { bind: true }),
        bound ==> plan_of(source, is_dir, bound) != Ok::<OpenPlan, PdfFault>(
            OpenPlan::Pdf { bind: true },
        ),
{
}

} // verus!
