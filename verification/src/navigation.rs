//! The dashboard's routes and its navigation bar: which link is marked as
//! the current one on each page, and the path of each page.
use vstd::prelude::*;

verus! {

/// A page of the dashboard.
#[derive(Debug)]
pub enum Route {
    Home,
    Pipelines,
    PipelineDetails(String),
    Tasks,
    TaskDetails(String),
    Metrics,
}

/// A link of the navigation bar.
#[derive(Debug, Clone, Copy, PartialEq, Eq, Structural)]
pub enum NavLink {
    Dashboard,
    Pipelines,
    Tasks,
    Metrics,
}

/// Whether `link` is marked as current on page `route`: each link on its own
/// page, and the pipelines and tasks links also on the pages of one pipeline
/// or one task.
pub open spec fn link_active(route: Route, link: NavLink) -> bool {
    match link {
        NavLink::Dashboard => route is Home,
        NavLink::Pipelines => route is Pipelines || route is PipelineDetails,
        NavLink::Tasks => route is Tasks || route is TaskDetails,
        NavLink::Metrics => route is Metrics,
    }
}

/// Whether `link` is marked as current on page `route`; see [`link_active`].
pub fn is_active(route: &Route, link: NavLink) -> (r: bool)
    ensures
        r == link_active(*route, link),
{
    match link {
        NavLink::Dashboard => matches!(route, Route::Home),
        NavLink::Pipelines => matches!(route, Route::Pipelines | Route::PipelineDetails(_)),
        NavLink::Tasks => matches!(route, Route::Tasks | Route::TaskDetails(_)),
        NavLink::Metrics => matches!(route, Route::Metrics),
    }
}

/// The page that `link` leads to.
pub open spec fn link_page(link: NavLink) -> Route {
    match link {
        NavLink::Dashboard => Route::Home,
        NavLink::Pipelines => Route::Pipelines,
        NavLink::Tasks => Route::Tasks,
        NavLink::Metrics => Route::Metrics,
    }
}

/// Each link is marked current on the page it leads to, and on that page no
/// other link is.
pub proof fn law_link_current_on_its_page(link: NavLink, other: NavLink)
    ensures
        link_active(link_page(link), link),
        link_active(link_page(link), other) ==> other == link,
{
}

/// On the page of one pipeline only the pipelines link is current, and on
/// the page of one task only the tasks link.
pub proof fn law_details_keep_their_link(id: String, other: NavLink)
    ensures
        link_active(Route::PipelineDetails(id), NavLink::Pipelines),
        link_active(Route::TaskDetails(id), NavLink::Tasks),
        link_active(Route::PipelineDetails(id), other) ==> other == NavLink::Pipelines,
        link_active(Route::TaskDetails(id), other) ==> other == NavLink::Tasks,
{
}

/// The page of one pipeline, or of one task, lies under the path of the list
/// page it belongs to, followed by a slash and its id.
pub proof fn law_details_paths_under_their_list(id: String)
    ensures
        path_of(Route::PipelineDetails(id)) == path_of(Route::Pipelines) + "/"@ + id@,
        path_of(Route::TaskDetails(id)) == path_of(Route::Tasks) + "/"@ + id@,
{
    reveal_strlit("/pipelines/");
    reveal_strlit("/pipelines");
    reveal_strlit("/tasks/");
    reveal_strlit("/tasks");
    reveal_strlit("/");
    assert("/pipelines/"@ =~= "/pipelines"@ + "/"@);
    assert("/tasks/"@ =~= "/tasks"@ + "/"@);
    assert(path_of(Route::PipelineDetails(id)) =~= path_of(Route::Pipelines) + "/"@ + id@);
    assert(path_of(Route::TaskDetails(id)) =~= path_of(Route::Tasks) + "/"@ + id@);
}

/// The label of a link of the navigation bar.
pub open spec fn label_of(link: NavLink) -> Seq<char> {
    match link {
        NavLink::Dashboard => "Dashboard"@,
        NavLink::Pipelines => "Pipelines"@,
        NavLink::Tasks => "Tasks"@,
        NavLink::Metrics => "Metrics"@,
    }
}

/// The label of a link of the navigation bar; see [`label_of`].
pub fn link_label(link: NavLink) -> (r: &'static str)
    ensures
        r@ == label_of(link),
{
    match link {
        NavLink::Dashboard => "Dashboard",
        NavLink::Pipelines => "Pipelines",
        NavLink::Tasks => "Tasks",
        NavLink::Metrics => "Metrics",
    }
}

/// The path of page `route`.
pub open spec fn path_of(route: Route) -> Seq<char> {
    match route {
        Route::Home => "/"@,
        Route::Pipelines => "/pipelines"@,
        Route::PipelineDetails(id) => "/pipelines/"@ + id@,
        Route::Tasks => "/tasks"@,
        Route::TaskDetails(id) => "/tasks/"@ + id@,
        Route::Metrics => "/metrics"@,
    }
}

/// The path of page `route`; see [`path_of`].
pub fn route_path(route: &Route) -> (r: String)
    ensures
        r@ == path_of(*route),
{
    match route {
        Route::Home => "/".to_owned(),
        Route::Pipelines => "/pipelines".to_owned(),
        Route::PipelineDetails(id) => {
            let mut r = "/pipelines/".to_owned();
            r.append(id.as_str());
            r
        },
        Route::Tasks => "/tasks".to_owned(),
        Route::TaskDetails(id) => {
            let mut r = "/tasks/".to_owned();
            r.append(id.as_str());
            r
        },
        Route::Metrics => "/metrics".to_owned(),
    }
}

} // verus!
