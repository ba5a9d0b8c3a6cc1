//! The todo data model: a `Todo` item as the remote service returns it, a
//! `Timestamp` for the server-assigned creation and update instants, and the
//! `TodoList` grouping.

use vstd::prelude::*;

verus! {

/// A UTC instant with date and time precision, as carried in the wire
/// format's `createdAt` / `updatedAt` fields (an RFC-3339 instant such as
/// `2023-01-02T03:04:05Z`).
#[derive(Clone, Copy, PartialEq, Eq, Structural, Debug)]
pub struct Timestamp {
    pub year: u16,
    pub month: u8,
    pub day: u8,
    pub hour: u8,
    pub minute: u8,
    pub second: u8,
}

/// Whether a year is a leap year in the proleptic Gregorian calendar.
pub open spec fn spec_is_leap_year(y: int) -> bool {
    (y % 4 == 0 && y % 100 != 0) || y % 400 == 0
}

/// Days in a month of a given year.
pub open spec fn spec_days_in_month(y: int, m: int) -> int {
    if m == 2 {
        if spec_is_leap_year(y) {
            29
        } else {
            28
        }
    } else if m == 4 || m == 6 || m == 9 || m == 11 {
        30
    } else {
        31
    }
}

impl Timestamp {
    /// A well-formed timestamp: a calendar-valid UTC instant whose year fits
    /// the four-digit wire representation.
    pub open spec fn wf(self) -> bool {
        &&& self.year <= 9999
        &&& 1 <= self.month <= 12
        &&& 1 <= self.day <= spec_days_in_month(self.year as int, self.month as int)
        &&& self.hour < 24
        &&& self.minute < 60
        &&& self.second < 60
    }

    /// Builds a timestamp from its parts, exactly when they name a valid
    /// calendar instant.
    pub fn new(year: u16, month: u8, day: u8, hour: u8, minute: u8, second: u8) -> (r: Option<
        Timestamp,
    >)
        ensures
            match r {
                Some(t) => t.wf() && t == (Timestamp { year, month, day, hour, minute, second }),
                None => !(Timestamp { year, month, day, hour, minute, second }).wf(),
            },
    {
        let t = Timestamp { year, month, day, hour, minute, second };
        if t.is_wf() {
            Some(t)
        } else {
            None
        }
    }

    /// Runtime check for `wf`.
    pub fn is_wf(&self) -> (r: bool)
        ensures
            r == self.wf(),
    {
        let leap: bool = (self.year % 4 == 0 && self.year % 100 != 0) || self.year % 400 == 0;
        let dim: u8 = if self.month == 2 {
            if leap {
                29
            } else {
                28
            }
        } else if self.month == 4 || self.month == 6 || self.month == 9 || self.month == 11 {
            30
        } else {
            31
        };
        self.year <= 9999 && 1 <= self.month && self.month <= 12 && 1 <= self.day && self.day <= dim
            && self.hour < 24 && self.minute < 60 && self.second < 60
    }
}

/// The mathematical value of a `Todo`: its string fields as character
/// sequences, its optional fields as options.
pub ghost struct TodoView {
    pub id: Option<Seq<char>>,
    pub title: Seq<char>,
    pub content: Seq<char>,
    pub completed: Option<bool>,
    pub createdAt: Option<Timestamp>,
    pub updatedAt: Option<Timestamp>,
}

impl TodoView {
    /// A well-formed todo value: any timestamps it carries are calendar-valid.
    pub open spec fn wf(self) -> bool {
        &&& match self.createdAt {
            Some(t) => t.wf(),
            None => true,
        }
        &&& match self.updatedAt {
            Some(t) => t.wf(),
            None => true,
        }
    }
}

/// A single todo item. A client-constructed value intended for creation has
/// only `title` and `content` populated; a server-returned value may carry
/// any subset of the optional fields.
#[allow(non_snake_case)]
#[derive(Debug, Clone)]
pub struct Todo {
    pub id: Option<String>,
    pub title: String,
    pub content: String,
    pub completed: Option<bool>,
    pub createdAt: Option<Timestamp>,
    pub updatedAt: Option<Timestamp>,
}

impl View for Todo {
    type V = TodoView;

    open spec fn view(&self) -> TodoView {
        TodoView {
            id: match self.id {
                Some(s) => Some(s@),
                None => None,
            },
            title: self.title@,
            content: self.content@,
            completed: self.completed,
            createdAt: self.createdAt,
            updatedAt: self.updatedAt,
        }
    }
}

impl Todo {
    /// A fresh todo for submission: title and content set, everything else
    /// absent until the server assigns it.
    pub fn new(title: &str, content: &str) -> (r: Self)
        ensures
            r@.id is None,
            r@.title == title@,
            r@.content == content@,
            r@.completed is None,
            r@.createdAt is None,
            r@.updatedAt is None,
            r@.wf(),
    {
        Self {
            id: None,
            title: title.to_owned(),
            content: content.to_owned(),
            completed: None,
            createdAt: None,
            updatedAt: None,
        }
    }
}

/// A group of todo items.
#[derive(Debug, Clone)]
pub struct TodoList {
    pub todos: Vec<Todo>,
}

impl View for TodoList {
    type V = Seq<TodoView>;

    open spec fn view(&self) -> Seq<TodoView> {
        self.todos@.map_values(|t: Todo| t@)
    }
}

} // verus!
