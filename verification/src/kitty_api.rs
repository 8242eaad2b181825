//! The window tree that `kitty @ ls` reports, as the library holds it.
//!
//! The JSON text itself is read outside the library; it lands in these
//! types.  A window's environment and user variables, JSON objects, are
//! held as lists of (name, value) pairs, in the order they were handed in.

use vstd::prelude::*;
use crate::text::{split_words, words_spec};

verus! {

/// All OS windows, in the order kitty lists them.
#[derive(Debug)]
pub struct KittyData(pub Vec<OsWindow>);

/// An OS window and its tabs.
#[derive(Debug)]
pub struct OsWindow {
    pub id: i64,
    pub is_focused: bool,
    pub last_focused: bool,
    pub tabs: Vec<Tab>,
}

/// A tab and its windows.
#[derive(Debug)]
pub struct Tab {
    pub id: i64,
    pub is_active: bool,
    pub is_focused: bool,
    pub title: String,
    /// Window ids, most recently active first.
    pub active_window_history: Vec<i64>,
    pub windows: Vec<Window>,
}

/// A kitty window.
#[derive(Debug)]
pub struct Window {
    pub id: i64,
    pub is_focused: bool,
    pub title: String,
    pub cwd: String,
    pub created_at: i64,
    pub last_reported_cmdline: Vec<String>,
    pub foreground_processes: Vec<Process>,
    /// Environment variables as (name, value) pairs.
    pub env: Vec<(String, String)>,
    /// User variables as (name, value) pairs.
    pub user_vars: Vec<(String, String)>,
}

/// A process in the foreground of a window.
#[derive(Debug)]
pub struct Process {
    pub cmdline: Vec<String>,
}

/// No name occurs twice among the pairs: they stand for a JSON object,
/// whose keys are distinct.
pub open spec fn distinct_names(vars: Seq<(String, String)>) -> bool {
    forall|i: int, j: int| 0 <= i < j < vars.len() ==> #[trigger] vars[i].0@ != #[trigger] vars[j].0@
}

/// Whether no name occurs twice among the pairs (see `distinct_names`).
pub fn has_distinct_names(vars: &Vec<(String, String)>) -> (r: bool)
    ensures
        r == distinct_names(vars@),
{
    let mut j: usize = 0;
    while j < vars.len()
        invariant
            j <= vars.len(),
            forall|a: int, b: int| 0 <= a < b < j ==> #[trigger] vars@[a].0@ != #[trigger] vars@[b].0@,
        decreases vars.len() - j,
    {
        let mut i: usize = 0;
        while i < j
            invariant
                j < vars.len(),
                i <= j,
                forall|a: int| 0 <= a < i ==> #[trigger] vars@[a].0@ != vars@[j as int].0@,
            decreases j - i,
        {
            if crate::text::same_text(vars[i].0.as_str(), vars[j].0.as_str()) {
                return false;
            }
            i = i + 1;
        }
        j = j + 1;
    }
    true
}

impl Window {
    /// The environment and the user variables each hold a name at most
    /// once, as the JSON objects they come from do.
    pub open spec fn well_formed(&self) -> bool {
        distinct_names(self.env@) && distinct_names(self.user_vars@)
    }

    /// Whether the window is well formed (see `well_formed`).
    pub fn check_well_formed(&self) -> (r: bool)
        ensures
            r == self.well_formed(),
    {
        has_distinct_names(&self.env) && has_distinct_names(&self.user_vars)
    }

    /// The command line of the window: the last one the shell reported when
    /// there is one, else that of the first foreground process, else none.
    pub open spec fn cmdline_spec(&self) -> Seq<String> {
        if self.last_reported_cmdline@.len() > 0 {
            self.last_reported_cmdline@
        } else if self.foreground_processes@.len() > 0 {
            self.foreground_processes@[0].cmdline@
        } else {
            Seq::empty()
        }
    }

    /// The command line of the window, preferring `last_reported_cmdline`
    /// over the command line of the first foreground process.
    pub fn cmdline(&self) -> (r: &[String])
        ensures
            r@ == self.cmdline_spec(),
    {
        if self.last_reported_cmdline.len() > 0 {
            self.last_reported_cmdline.as_slice()
        } else if self.foreground_processes.len() > 0 {
            self.foreground_processes[0].cmdline.as_slice()
        } else {
            self.last_reported_cmdline.as_slice()
        }
    }
}

/// The JSON value found for a window's `last_reported_cmdline`.
pub enum CmdlineField {
    /// An array; `None` stands for an element that is not a string.
    List(Vec<Option<String>>),
    /// A string.
    Text(String),
    /// `null` or any other value.
    Other,
}

/// What the field reads as: the strings of an array (no value when one of
/// its elements is no string), the white-space separated words of a
/// string, and nothing for any other value.
pub open spec fn cmdline_field_spec(field: CmdlineField) -> Option<Seq<Seq<char>>> {
    match field {
        CmdlineField::List(items) => if forall|i: int| 0 <= i < items@.len() ==> items@[i] is Some {
            Some(items@.map_values(|o: Option<String>| o->0@))
        } else {
            None
        },
        CmdlineField::Text(s) => Some(words_spec(s@)),
        CmdlineField::Other => Some(Seq::empty()),
    }
}

/// Reads a `last_reported_cmdline` value: an array of strings as it is, a
/// string split on white space, anything else as an empty command line.
/// `None` when an array holds something other than a string.
pub fn read_cmdline_field(field: CmdlineField) -> (r: Option<Vec<String>>)
    ensures
        match cmdline_field_spec(field) {
            Some(words) => r matches Some(v) && v@.map_values(|w: String| w@) == words,
            None => r is None,
        },
{
    match field {
        CmdlineField::List(items) => {
            let mut out: Vec<String> = Vec::new();
            let mut i: usize = 0;
            while i < items.len()
                invariant
                    field == CmdlineField::List(items),
                    i <= items.len(),
                    forall|k: int| 0 <= k < i ==> items@[k] is Some,
                    out@.map_values(|w: String| w@) == items@.take(i as int).map_values(
                        |o: Option<String>| o->0@,
                    ),
                decreases items.len() - i,
            {
                match &items[i] {
                    Some(w) => {
                        let ghost before = out@;
                        out.push(w.clone());
                        proof {
                            assert(items@.take(i + 1).map_values(|o: Option<String>| o->0@)
                                == items@.take(i as int).map_values(|o: Option<String>| o->0@).push(
                                w@,
                            ));
                            assert(out@.map_values(|w: String| w@) == before.map_values(
                                |w: String| w@,
                            ).push(w@));
                        }
                    },
                    None => {
                        return None;
                    },
                }
                i = i + 1;
            }
            proof {
                assert(items@.take(items@.len() as int) == items@);
            }
            Some(out)
        },
        CmdlineField::Text(s) => Some(split_words(s.as_str())),
        CmdlineField::Other => {
            let out: Vec<String> = Vec::new();
            proof {
                assert(out@.map_values(|w: String| w@) == Seq::<Seq<char>>::empty());
            }
            Some(out)
        },
    }
}

} // verus!
