//! Plain data behind the terminal dashboard: key-driven actions, view
//! modes, color themes, the event-polling cadence, and the inputs of the
//! two metric widgets. Rendering and terminal I/O stay with the caller.

use vstd::prelude::*;

verus! {

/// What a key press asks the dashboard to do.
#[derive(Debug, Clone, Copy, PartialEq, Eq, Structural)]
pub enum Action {
    Quit,
    Up,
    Down,
    Left,
    Right,
    PageUp,
    PageDown,
    Home,
    End,
    Select,
    Back,
    Help,
    Refresh,
    Filter,
    Sort,
    Search,
    New,
    Edit,
    Delete,
    NextPane,
    PrevPane,
    JumpToStatus(usize),
    SwitchView(ViewMode),
    /// A key with no binding.
    Noop,
}

/// The dashboard's screens.
#[derive(Debug, Clone, Copy, PartialEq, Eq, Structural)]
pub enum ViewMode {
    Dashboard,
    Kanban,
    List,
    Metrics,
    Graph,
}

/// Color themes of the dashboard.
#[derive(Debug, Clone, Copy)]
pub enum Theme {
    Default,
    Dracula,
    Nord,
    Solarized,
}

impl Default for Theme {
    /// The standard theme.
    fn default() -> (r: Theme)
        ensures
            r is Nord,
    {
        Theme::Nord
    }
}

/// Paces the event loop: how long one poll waits for input, in
/// milliseconds, before it counts as a tick.
#[derive(Debug, Clone, Copy)]
pub struct EventHandler {
    pub tick_rate_ms: u64,
}

impl EventHandler {
    /// An event pacer with the given poll interval in milliseconds.
    pub fn new(tick_rate_ms: u64) -> (r: EventHandler)
        ensures
            r.tick_rate_ms == tick_rate_ms,
    {
        EventHandler { tick_rate_ms }
    }
}

/// Input of the sparkline widget: a title, the data points, a theme, and
/// an optional fixed scale.
#[derive(Debug, Clone)]
pub struct MetricsSparkline<'a> {
    pub title: &'a str,
    pub data: &'a [u64],
    pub theme: Theme,
    pub max_value: Option<u64>,
}

impl<'a> MetricsSparkline<'a> {
    /// A sparkline over the given data, scaled to its own maximum.
    pub fn new(title: &'a str, data: &'a [u64], theme: Theme) -> (r: MetricsSparkline<'a>)
        ensures
            r.title@ == title@,
            r.data@ == data@,
            r.theme == theme,
            r.max_value is None,
    {
        MetricsSparkline { title, data, theme, max_value: None }
    }

    /// Fixes the scale of the sparkline.
    pub fn max_value(self, max: u64) -> (r: MetricsSparkline<'a>)
        ensures
            r.title@ == self.title@,
            r.data@ == self.data@,
            r.theme == self.theme,
            r.max_value == Some(max),
    {
        MetricsSparkline { max_value: Some(max), ..self }
    }
}

/// Input of the labelled mini chart: a title, the current value with its
/// unit, the data points, and a theme.
#[derive(Debug, Clone)]
pub struct MiniChart<'a> {
    pub title: &'a str,
    pub current_value: u64,
    pub data: &'a [u64],
    pub unit: &'a str,
    pub theme: Theme,
}

impl<'a> MiniChart<'a> {
    /// A mini chart over the given data.
    pub fn new(
        title: &'a str,
        current_value: u64,
        data: &'a [u64],
        unit: &'a str,
        theme: Theme,
    ) -> (r: MiniChart<'a>)
        ensures
            r.title@ == title@,
            r.current_value == current_value,
            r.data@ == data@,
            r.unit@ == unit@,
            r.theme == theme,
    {
        MiniChart { title, current_value, data, unit, theme }
    }
}

} // verus!
