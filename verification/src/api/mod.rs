//! The subcommand surface of the crawler.

use vstd::prelude::*;

use crate::strutil::str_eq;

pub mod crawl;

verus! {

broadcast use vstd::string::group_string_axioms;

/// The top-level options: one subcommand.
#[derive(Debug, Clone)]
pub struct Opts {
    pub cmd: Command,
}

/// The available subcommands.
#[derive(Debug, Clone)]
pub enum Command {
    Crawl(crawl::CrawlOpts),
}

/// The output format selector.
#[derive(Debug, Clone, PartialEq, Eq, Structural)]
pub enum OutputFormat {
    Json,
    Text,
    Yaml,
}

impl OutputFormat {
    /// Parse a format name; any unknown name is an error naming the input.
    pub fn parse(s: &str) -> (r: Result<OutputFormat, String>)
        ensures
            s@ == "json"@ ==> r == Ok::<OutputFormat, String>(OutputFormat::Json),
            s@ == "text"@ ==> r == Ok::<OutputFormat, String>(OutputFormat::Text),
            s@ == "yaml"@ ==> r == Ok::<OutputFormat, String>(OutputFormat::Yaml),
            s@ != "json"@ && s@ != "text"@ && s@ != "yaml"@ ==> (r matches Err(m) && m@
                == "Unknown output format: "@ + s@),
    {
        proof {
            reveal_strlit("json");
            reveal_strlit("text");
            reveal_strlit("yaml");
            // the three names differ already in their first character
            assert("json"@[0] != "text"@[0]);
            assert("json"@[0] != "yaml"@[0]);
            assert("text"@[0] != "yaml"@[0]);
        }
        if str_eq(s, "json") {
            Ok(OutputFormat::Json)
        } else if str_eq(s, "text") {
            Ok(OutputFormat::Text)
        } else if str_eq(s, "yaml") {
            Ok(OutputFormat::Yaml)
        } else {
            let mut m = String::from_str("Unknown output format: ");
            m.append(s);
            Err(m)
        }
    }
}

impl core::str::FromStr for OutputFormat {
    type Err = String;

    fn from_str(s: &str) -> Result<OutputFormat, String> {
        OutputFormat::parse(s)
    }
}

} // verus!
