use snippets::summaries::{
    notify3, notify4, some_function_a, some_function_b, NewsArticle, Summary, SummaryB, SummaryC,
};

fn example_article() -> NewsArticle {
    NewsArticle {
        headline: String::from("Penguins win the Stanley Cup Championship!"),
        location: String::from("Pittsburgh, PA, USA"),
        author: String::from("Iceburgh"),
        content: String::from("The Pittsburgh Penguins once again are the best hockey team."),
    }
}

#[test]
fn article_summary_joins_headline_author_and_location() {
    let article = example_article();
    assert_eq!(
        Summary::summarize(&article),
        "Penguins win the Stanley Cup Championship!, by Iceburgh (Pittsburgh, PA, USA)"
    );
}

#[test]
fn default_summary_is_the_fixed_text() {
    let article = example_article();
    assert_eq!(SummaryB::summarize(&article), "(Read more...)");
}

struct Tweet {
    username: String,
}

impl SummaryC for Tweet {
    fn summarize_author(&self) -> String {
        format!("@{}", self.username)
    }
}

#[test]
fn default_summary_wraps_the_author() {
    let tweet = Tweet { username: String::from("horse_ebooks") };
    assert_eq!(tweet.summarize_author(), "@horse_ebooks");
    assert_eq!(SummaryC::summarize(&tweet), "(Read more from @horse_ebooks...)");
}

#[test]
fn notify_accepts_doubly_bounded_arguments() {
    let article = example_article();
    notify3(&article);
    notify4(&article);
}

#[test]
fn bounded_demo_functions_return_zero() {
    let article = example_article();
    assert_eq!(some_function_a(&article, &1u8), 0);
    assert_eq!(some_function_b(&article, &String::from("x")), 0);
}
