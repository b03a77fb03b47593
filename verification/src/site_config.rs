//! The site configuration: the input and output directories and the
//! category-ordered glob pattern lists that drive partitioning. Reading
//! and deserializing the configuration file is a collaborator's concern;
//! this type carries the values and their defaults.

use vstd::prelude::*;

verus! {

/// A site's configuration values. Every field has a default, used when
/// the configuration file leaves it out.
pub struct SiteConfig {
    pub dir: String,
    pub output_dir: String,
    pub exclude: Vec<String>,
    pub templates: Vec<String>,
    pub snippets: Vec<String>,
    pub datasets: Vec<String>,
    pub datarows: Vec<String>,
    pub assets: Vec<String>,
    pub pages: Vec<String>,
}

impl SiteConfig {
    /// The default input directory: the current one.
    pub fn default_dir() -> (r: String)
        ensures
            r@ == "./"@,
    {
        "./".to_owned()
    }

    /// The default output directory.
    pub fn default_output_dir() -> (r: String)
        ensures
            r@ == "output/"@,
    {
        "output/".to_owned()
    }

    /// By default nothing is excluded.
    pub fn default_exclude() -> (r: Vec<String>)
        ensures
            r@.len() == 0,
    {
        Vec::new()
    }

    /// The default template pattern list.
    pub fn default_templates() -> (r: Vec<String>)
        ensures
            r@.len() == 1,
            r@[0]@ == "templates/**/*.xml"@,
    {
        let mut r: Vec<String> = Vec::new();
        r.push("templates/**/*.xml".to_owned());
        r
    }

    /// The default snippet pattern list.
    pub fn default_snippets() -> (r: Vec<String>)
        ensures
            r@.len() == 1,
            r@[0]@ == "snippets/**/*.xml"@,
    {
        let mut r: Vec<String> = Vec::new();
        r.push("snippets/**/*.xml".to_owned());
        r
    }

    /// The default dataset pattern list.
    pub fn default_datasets() -> (r: Vec<String>)
        ensures
            r@.len() == 1,
            r@[0]@ == "data/*.xml"@,
    {
        let mut r: Vec<String> = Vec::new();
        r.push("data/*.xml".to_owned());
        r
    }

    /// The default data-row pattern list.
    pub fn default_datarows() -> (r: Vec<String>)
        ensures
            r@.len() == 1,
            r@[0]@ == "data/*/**/*.xml"@,
    {
        let mut r: Vec<String> = Vec::new();
        r.push("data/*/**/*.xml".to_owned());
        r
    }

    /// The default asset pattern list.
    pub fn default_assets() -> (r: Vec<String>)
        ensures
            r@.len() == 1,
            r@[0]@ == "assets/**"@,
    {
        let mut r: Vec<String> = Vec::new();
        r.push("assets/**".to_owned());
        r
    }

    /// The default page pattern list.
    pub fn default_pages() -> (r: Vec<String>)
        ensures
            r@.len() == 1,
            r@[0]@ == "**/*.xml"@,
    {
        let mut r: Vec<String> = Vec::new();
        r.push("**/*.xml".to_owned());
        r
    }
}

} // verus!
