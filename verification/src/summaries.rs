//! Traits for summarising content, a news-article type implementing them,
//! and functions whose parameters are bounded by several traits at once.

use vstd::prelude::*;

use core::fmt::Debug;
use vstd::string::StringExecFns;

verus! {

/// Behaviour shared by types that can summarise themselves.  Each
/// implementor states, as `summary_spec`, which characters its summary
/// holds, and `summarize` must return exactly those.
pub trait Summary {
    spec fn summary_spec(&self) -> Seq<char>;

    fn summarize(&self) -> (s: String)
        ensures
            s@ == self.summary_spec(),
    ;
}

/// A news article, summarised from its headline, author and location.
#[derive(Clone)]
pub struct NewsArticle {
    pub headline: String,
    pub location: String,
    pub author: String,
    pub content: String,
}

/// The characters of a `NewsArticle` summary: headline, author and
/// location joined as `headline, by author (location)`.
pub open spec fn article_summary(a: &NewsArticle) -> Seq<char> {
    a.headline@ + ", by "@ + a.author@ + " ("@ + a.location@ + ")"@
}

impl Summary for NewsArticle {
    open spec fn summary_spec(&self) -> Seq<char> {
        article_summary(self)
    }

    fn summarize(&self) -> (s: String) {
        let mut s = self.headline.clone();
        s.append(", by ");
        s.append(self.author.as_str());
        s.append(" (");
        s.append(self.location.as_str());
        s.append(")");
        proof {
            assert(s@ =~= article_summary(self));
        }
        s
    }
}

/// A summary trait with a default implementation: every implementor
/// summarises as the fixed text `(Read more...)` unless it overrides it.
pub trait SummaryB {
    fn summarize(&self) -> (s: String)
        ensures
            s@ == "(Read more...)"@,
    {
        "(Read more...)".to_owned()
    }
}

impl SummaryB for NewsArticle {
}

/// The characters of a default `SummaryC` summary built around an author
/// description `a`.
pub open spec fn summary_around_author(a: Seq<char>) -> Seq<char> {
    "(Read more from "@ + a + "...)"@
}

/// A summary trait whose default method calls a required method: the
/// default summary wraps whatever `summarize_author` returns.
pub trait SummaryC {
    fn summarize_author(&self) -> String;

    fn summarize(&self) -> (s: String)
        ensures
            exists|a: Seq<char>| s@ == #[trigger] summary_around_author(a),
    {
        let author = self.summarize_author();
        let mut s = "(Read more from ".to_owned();
        s.append(author.as_str());
        s.append("...)");
        proof {
            assert(s@ =~= summary_around_author(author@));
        }
        s
    }
}

/// A marker trait used to demonstrate multiple trait bounds.
pub trait Display {
}

impl Display for NewsArticle {
}

/// Accepts any value that is both summarisable and displayable.
pub fn notify3(item: &(impl Summary + Display)) {
}

/// The same bound as `notify3`, written with an explicit type parameter.
pub fn notify4<T: Summary + Display>(item: &T) {
}

/// Demonstrates that integers can be turned into strings through the
/// standard library's blanket `ToString` implementation.
pub fn x() {
    let _s = 3.to_string();
}

/// Demonstrates several trait bounds written inline; always returns 0.
pub fn some_function_a<T: Display + Clone, U: Clone + Debug>(t: &T, u: &U) -> (r: i32)
    ensures
        r == 0,
{
    0
}

/// Demonstrates the same bounds written in a `where` clause; always
/// returns 0.
pub fn some_function_b<T, U>(t: &T, u: &U) -> (r: i32)
    where
        T: Display + Clone,
        U: Clone + Debug,
    ensures
        r == 0,
{
    0
}

} // verus!
