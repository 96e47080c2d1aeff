use keyed_map::error_boundary::{
    try_build_result, try_rebuild_result, Anchor, AnyError, Mountable, Render, Renderer, Tree, Try,
    TryCatchBoundary, TryState,
};
use std::cell::RefCell;
use std::rc::Rc;

type Log = Rc<RefCell<Vec<String>>>;

/// A renderer without a tree: mounting is told to the state that is mounted.
struct Dom;

struct Marker;

impl Tree for Dom {
    type Node = ();
    type Element = ();
}

impl Mountable<Dom> for Marker {
    fn unmount(&mut self) {}

    fn mount(&mut self, _parent: &(), _marker: Option<&()>) {}
}

impl Renderer for Dom {
    type Placeholder = Marker;

    fn create_placeholder() -> Marker {
        Marker
    }

    fn node_of(_placeholder: &Marker) -> &() {
        &()
    }

    fn mount_before<M: Mountable<Dom>>(new_child: &mut M, before: &()) {
        new_child.mount(&(), Some(before));
    }
}

/// A view that writes down what is done with it, and fails on demand.
struct View {
    name: &'static str,
    fails: bool,
    log: Log,
}

struct Built {
    name: &'static str,
    log: Log,
}

impl Mountable<Dom> for Built {
    fn unmount(&mut self) {
        self.log.borrow_mut().push(format!("unmount {}", self.name));
    }

    fn mount(&mut self, _parent: &(), _marker: Option<&()>) {
        self.log.borrow_mut().push(format!("mount {}", self.name));
    }
}

impl Anchor<Dom> for Built {
    fn insert_before_this<M: Mountable<Dom>>(&self, _parent: &(), _child: &mut M) -> bool {
        self.log.borrow_mut().push(format!("insert before {}", self.name));
        true
    }
}

impl Render<Dom> for View {
    type State = Built;
    type FallibleState = Built;

    fn build(self) -> Built {
        self.log.borrow_mut().push(format!("build {}", self.name));
        Built { name: self.name, log: self.log }
    }

    fn rebuild(self, state: &mut Built) {
        self.log.borrow_mut().push(format!("rebuild {} over {}", self.name, state.name));
        state.name = self.name;
    }

    fn try_build(self) -> Result<Built, AnyError> {
        if self.fails {
            Err(AnyError { message: format!("{} failed", self.name) })
        } else {
            Ok(self.build())
        }
    }

    fn try_rebuild(self, state: &mut Built) -> Result<(), AnyError> {
        if self.fails {
            Err(AnyError { message: format!("{} failed", self.name) })
        } else {
            self.rebuild(state);
            Ok(())
        }
    }
}

fn view(name: &'static str, fails: bool, log: &Log) -> View {
    View { name, fails, log: log.clone() }
}

/// A fallback that writes the error down and shows the view `name`.
fn fallback(name: &'static str, log: &Log) -> impl FnMut(AnyError) -> View {
    let log = log.clone();
    move |error| {
        log.borrow_mut().push(format!("caught: {}", error.message));
        View { name, fails: false, log: log.clone() }
    }
}

fn taken(log: &Log) -> Vec<String> {
    log.borrow_mut().drain(..).collect()
}

#[test]
fn build_shows_the_children_that_build() {
    let log = Log::default();
    let _state = Try::new(fallback("fb", &log), view("kids", false, &log)).build();
    assert_eq!(taken(&log), vec!["build kids"]);
}

#[test]
fn build_shows_the_fallback_where_the_children_fail() {
    let log = Log::default();
    let _state = Try::new(fallback("fb", &log), view("kids", true, &log)).build();
    assert_eq!(taken(&log), vec!["caught: kids failed", "build fb"]);
}

#[test]
fn rebuild_of_shown_children_rebuilds_them_in_place() {
    let log = Log::default();
    let mut state = Try::new(fallback("fb", &log), view("kids", false, &log)).build();
    taken(&log);
    Try::new(fallback("fb", &log), view("kids2", false, &log)).rebuild(&mut state);
    assert_eq!(taken(&log), vec!["rebuild kids2 over kids"]);
}

#[test]
fn failed_rebuild_puts_the_fallback_in_place_of_the_children() {
    let log = Log::default();
    let mut state = Try::new(fallback("fb", &log), view("kids", false, &log)).build();
    taken(&log);
    Try::new(fallback("fb", &log), view("kids2", true, &log)).rebuild(&mut state);
    assert_eq!(taken(&log), vec!["unmount kids", "caught: kids2 failed", "build fb", "mount fb"]);
    // what is shown now is the fallback
    state.unmount();
    assert_eq!(taken(&log), vec!["unmount fb"]);
}

#[test]
fn children_take_the_place_of_a_first_fallback() {
    let log = Log::default();
    let mut state = Try::new(fallback("fb", &log), view("kids", true, &log)).build();
    taken(&log);
    Try::new(fallback("fb", &log), view("kids2", false, &log)).rebuild(&mut state);
    assert_eq!(taken(&log), vec!["build kids2", "unmount fb", "mount kids2"]);
    state.unmount();
    assert_eq!(taken(&log), vec!["unmount kids2"]);
}

#[test]
fn a_first_fallback_is_rebuilt_while_the_children_keep_failing() {
    let log = Log::default();
    let mut state = Try::new(fallback("fb", &log), view("kids", true, &log)).build();
    taken(&log);
    Try::new(fallback("fb2", &log), view("kids2", true, &log)).rebuild(&mut state);
    assert_eq!(taken(&log), vec!["caught: kids2 failed", "rebuild fb2 over fb"]);
}

#[test]
fn a_later_fallback_is_rebuilt_or_gives_way() {
    let log = Log::default();
    let mut state = Try::new(fallback("fb", &log), view("kids", false, &log)).build();
    Try::new(fallback("fb", &log), view("kids2", true, &log)).rebuild(&mut state);
    taken(&log);
    Try::new(fallback("fb3", &log), view("kids3", true, &log)).rebuild(&mut state);
    assert_eq!(taken(&log), vec!["caught: kids3 failed", "rebuild fb3 over fb"]);
    Try::new(fallback("fb4", &log), view("kids4", false, &log)).rebuild(&mut state);
    assert_eq!(taken(&log), vec!["build kids4", "unmount fb3", "mount kids4"]);
    Try::new(fallback("fb5", &log), view("kids5", false, &log)).rebuild(&mut state);
    assert_eq!(taken(&log), vec!["rebuild kids5 over kids4"]);
}

#[test]
fn mounting_goes_to_what_is_shown() {
    let log = Log::default();
    let mut shown = Try::new(fallback("fb", &log), view("kids", false, &log)).build();
    let mut fallen = Try::new(fallback("fb", &log), view("kids", true, &log)).build();
    taken(&log);
    shown.mount(&(), None);
    fallen.mount(&(), None);
    assert_eq!(taken(&log), vec!["mount kids", "mount fb"]);
    shown.unmount();
    fallen.unmount();
    assert_eq!(taken(&log), vec!["unmount kids", "unmount fb"]);
    let mut other = Marker;
    assert!(shown.insert_before_this(&(), &mut other));
    assert!(fallen.insert_before_this(&(), &mut other));
    assert_eq!(taken(&log), vec!["insert before kids", "insert before fb"]);
}

#[test]
fn a_boundary_never_fails_itself() {
    let log = Log::default();
    let built = Try::new(fallback("fb", &log), view("kids", true, &log)).try_build();
    assert!(built.is_ok());
    let mut state = match built {
        Ok(state) => state,
        Err(_) => unreachable!(),
    };
    let rebuilt = Try::new(fallback("fb", &log), view("kids2", true, &log)).try_rebuild(&mut state);
    assert!(rebuilt.is_ok());
}

#[test]
fn catch_wraps_a_view_in_a_boundary() {
    let log = Log::default();
    let boundary = view("kids", true, &log).catch(fallback("fb", &log));
    let _state = boundary.build();
    assert_eq!(taken(&log), vec!["caught: kids failed", "build fb"]);
}

fn built(name: &'static str, log: &Log) -> Built {
    Built { name, log: log.clone() }
}

fn failure(message: &str) -> AnyError {
    AnyError { message: message.to_string() }
}

#[test]
fn first_state_holds_the_children_that_were_built() {
    let log = Log::default();
    let mut state = TryState::<View, View, Dom>::first(Ok(built("kids", &log)), fallback("fb", &log));
    assert_eq!(taken(&log), Vec::<String>::new());
    state.unmount();
    assert_eq!(taken(&log), vec!["unmount kids"]);
}

#[test]
fn first_state_holds_the_fallback_for_the_error() {
    let log = Log::default();
    let mut state = TryState::<View, View, Dom>::first(Err(failure("no")), fallback("fb", &log));
    assert_eq!(taken(&log), vec!["caught: no", "build fb"]);
    state.unmount();
    assert_eq!(taken(&log), vec!["unmount fb"]);
}

#[test]
fn a_rebuild_that_worked_leaves_the_children() {
    let log = Log::default();
    let mut state = TryState::<View, View, Dom>::first(Ok(built("kids", &log)), fallback("fb", &log));
    state.after_rebuild(Ok(()), fallback("fb", &log));
    assert_eq!(taken(&log), Vec::<String>::new());
    state.unmount();
    assert_eq!(taken(&log), vec!["unmount kids"]);
}

#[test]
fn a_rebuild_that_failed_brings_the_fallback() {
    let log = Log::default();
    let mut state = TryState::<View, View, Dom>::first(Ok(built("kids", &log)), fallback("fb", &log));
    state.after_rebuild(Err(failure("broken")), fallback("fb", &log));
    assert_eq!(taken(&log), vec!["unmount kids", "caught: broken", "build fb", "mount fb"]);
    state.unmount();
    assert_eq!(taken(&log), vec!["unmount fb"]);
}

#[test]
fn a_build_that_failed_again_rebuilds_the_fallback() {
    let log = Log::default();
    let mut state = TryState::<View, View, Dom>::first(Err(failure("no")), fallback("fb", &log));
    taken(&log);
    state.after_build(Err(failure("still no")), fallback("fb2", &log));
    assert_eq!(taken(&log), vec!["caught: still no", "rebuild fb2 over fb"]);
}

#[test]
fn a_build_that_worked_replaces_the_fallback() {
    let log = Log::default();
    let mut state = TryState::<View, View, Dom>::first(Err(failure("no")), fallback("fb", &log));
    taken(&log);
    state.after_build(Ok(built("kids", &log)), fallback("fb2", &log));
    assert_eq!(taken(&log), vec!["unmount fb", "mount kids"]);
    state.unmount();
    assert_eq!(taken(&log), vec!["unmount kids"]);
}

#[test]
fn insert_before_shown_asks_what_is_shown() {
    let log = Log::default();
    let shown = TryState::<View, View, Dom>::first(Ok(built("kids", &log)), fallback("fb", &log));
    let fallen = TryState::<View, View, Dom>::first(Err(failure("no")), fallback("fb", &log));
    taken(&log);
    let mut other = Marker;
    assert!(shown.insert_before_shown(&(), &mut other));
    assert!(fallen.insert_before_shown(&(), &mut other));
    assert_eq!(taken(&log), vec!["insert before kids", "insert before fb"]);
}

#[test]
fn a_view_that_is_there_is_built() {
    let log = Log::default();
    let outcome = try_build_result::<Dom, View>(Ok(view("kids", false, &log)));
    assert!(outcome.is_ok());
    assert_eq!(taken(&log), vec!["build kids"]);
}

#[test]
fn an_error_in_place_of_a_view_is_passed_on() {
    let log = Log::default();
    let outcome = try_build_result::<Dom, View>(Err(failure("lost")));
    match outcome {
        Ok(_) => unreachable!(),
        Err(error) => assert_eq!(error.message, "lost"),
    }
    assert_eq!(taken(&log), Vec::<String>::new());

    let mut state = built("kids", &log);
    let outcome = try_rebuild_result::<Dom, View>(Err(failure("lost again")), &mut state);
    match outcome {
        Ok(()) => unreachable!(),
        Err(error) => assert_eq!(error.message, "lost again"),
    }
    assert_eq!(state.name, "kids");
    assert_eq!(taken(&log), Vec::<String>::new());
}

#[test]
fn a_view_that_is_there_is_rebuilt() {
    let log = Log::default();
    let mut state = built("kids", &log);
    let outcome = try_rebuild_result::<Dom, View>(Ok(view("kids2", false, &log)), &mut state);
    assert!(outcome.is_ok());
    assert_eq!(state.name, "kids2");
    assert_eq!(taken(&log), vec!["rebuild kids2 over kids"]);
}
