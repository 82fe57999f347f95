//! Configuration and state for the command-line tooling around the library:
//! subcommand options, watcher state, and output modes.
//!
//! The process spawning, file watching, and network serving themselves are
//! I/O and live outside the library; they read their settings from these
//! types.

use vstd::prelude::*;

verus! {

/// How output from a child process is handled: inherited to the terminal, or
/// piped line by line to a callback that the watcher's caller installs.
#[derive(Clone, Copy, Debug, PartialEq, Eq, Structural)]
pub enum Output {
    /// Write through to the standard streams.
    Inherit,
    /// Hand each line to an installed callback.
    Pipe,
}

/// Options for running a project once and generating a new image.
#[derive(Clone, Debug)]
pub struct Run {
    /// The project to run.
    pub project: String,
    /// Extra arguments passed along to the build.
    pub extra: Vec<String>,
}

impl Run {
    /// Options for running `project`, passing `extra` along to the build.
    pub fn new(project: String, extra: Vec<String>) -> (r: Run)
        ensures
            r.project@ == project@,
            r.extra@ == extra@,
    {
        Run { project, extra }
    }
}

/// State for watching a project: on every change the project is rebuilt and
/// rerun with the extra arguments, reporting through the configured output
/// mode.
#[derive(Clone, Debug)]
pub struct Watcher {
    /// The project being watched.
    pub project: String,
    /// Extra arguments passed along to each rerun.
    pub extra: Vec<String>,
    /// How rerun output is reported.
    pub output: Output,
}

impl Watcher {
    /// Watch the given project, with no extra arguments, reporting through
    /// the inherited standard streams.
    pub fn new(project: String) -> (r: Watcher)
        ensures
            r.project@ == project@,
            r.extra@ == Seq::<String>::empty(),
            r.output == Output::Inherit,
    {
        Watcher { project, extra: Vec::new(), output: Output::Inherit }
    }

    /// Set the extra arguments passed along to each rerun.
    pub fn extra(&mut self, extra: Vec<String>)
        ensures
            final(self).extra@ == extra@,
            final(self).project@ == old(self).project@,
            final(self).output == old(self).output,
    {
        self.extra = extra;
    }

    /// Report through a callback instead of the standard streams. The
    /// callback itself is installed by whatever runs the watch loop.
    pub fn on_output(&mut self)
        ensures
            final(self).output == Output::Pipe,
            final(self).project@ == old(self).project@,
            final(self).extra@ == old(self).extra@,
    {
        self.output = Output::Pipe;
    }
}

/// Options for creating a new project from a template.
#[derive(Clone, Debug)]
pub struct New {
    /// The name of the new project.
    pub name: String,
    /// The template the new project is cloned from.
    pub template: String,
}

impl New {
    /// Options for creating a project called `name` from `template`.
    pub fn new(name: String, template: String) -> (r: New)
        ensures
            r.name@ == name@,
            r.template@ == template@,
    {
        New { name, template }
    }
}

/// Options for watching a project for changes.
#[derive(Clone, Debug)]
pub struct Watch {
    /// The project being watched.
    pub project: String,
    /// Extra arguments passed along to each rerun.
    pub extra: Vec<String>,
}

impl Watch {
    /// Options for watching `project`.
    pub fn new(project: String, extra: Vec<String>) -> (r: Watch)
        ensures
            r.project@ == project@,
            r.extra@ == extra@,
    {
        Watch { project, extra }
    }

    /// Set the extra arguments, which must not have been set before.
    pub fn set_extra(&mut self, extra: Vec<String>)
        requires
            old(self).extra@.len() == 0,
        ensures
            final(self).extra@ == extra@,
            final(self).project@ == old(self).project@,
    {
        self.extra = extra;
    }
}

/// Options for serving a project over a local server while watching it.
#[derive(Clone, Debug)]
pub struct Serve {
    /// The project being served.
    pub project: String,
    /// The local port to serve on.
    pub port: u16,
    /// Extra arguments passed along to each rerun.
    pub extra: Vec<String>,
}

impl Serve {
    /// Options for serving `project` locally on `port`.
    pub fn new(project: String, port: u16, extra: Vec<String>) -> (r: Serve)
        ensures
            r.project@ == project@,
            r.port == port,
            r.extra@ == extra@,
    {
        Serve { project, port, extra }
    }

    /// Set the extra arguments, which must not have been set before.
    pub fn set_extra(&mut self, extra: Vec<String>)
        requires
            old(self).extra@.len() == 0,
        ensures
            final(self).extra@ == extra@,
            final(self).project@ == old(self).project@,
            final(self).port == old(self).port,
    {
        self.extra = extra;
    }
}

/// Per-run configuration handed to a sketch: where the generated image goes.
#[derive(Clone, Debug)]
pub struct Config {
    /// Where the generated image goes.
    pub file_name: String,
}

impl Config {
    /// Configuration writing the image to `file_name`.
    pub fn new(file_name: String) -> (r: Config)
        ensures
            r.file_name@ == file_name@,
    {
        Config { file_name }
    }
}

/// A wrapper that forces everything drawn through the inner value to take the
/// given color.
#[derive(Clone, Debug)]
pub struct Color<S> {
    /// The wrapped value.
    pub inner: S,
    /// The color forced onto the wrapped value's drawings.
    pub color: String,
}

impl<S> Color<S> {
    /// Force `inner`'s drawings to be of the given color.
    pub fn new(inner: S, color: String) -> (r: Color<S>)
        ensures
            r.inner == inner,
            r.color@ == color@,
    {
        Color { inner, color }
    }
}

} // verus!
