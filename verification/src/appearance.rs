//! The colors of the terminal tabs.
use vstd::prelude::*;

verus! {

/// The colors of a terminal, as `#rrggbb` strings.
pub struct TerminalPalette {
    pub background: String,
    pub foreground: String,
    pub bright_foreground: Option<String>,
    pub dim_foreground: String,
    pub black: String,
    pub red: String,
    pub green: String,
    pub yellow: String,
    pub blue: String,
    pub magenta: String,
    pub cyan: String,
    pub white: String,
    pub bright_black: String,
    pub bright_red: String,
    pub bright_green: String,
    pub bright_yellow: String,
    pub bright_blue: String,
    pub bright_magenta: String,
    pub bright_cyan: String,
    pub bright_white: String,
    pub dim_black: String,
    pub dim_red: String,
    pub dim_green: String,
    pub dim_yellow: String,
    pub dim_blue: String,
    pub dim_magenta: String,
    pub dim_cyan: String,
    pub dim_white: String,
}

/// The light palette of the terminal tabs: dark text on white, with
/// readable bright and dim variants of the eight colors.
pub fn terminal() -> (p: TerminalPalette)
    ensures
        p.background@ == "#ffffff"@,
        p.foreground@ == "#1d1d1f"@,
        p.bright_foreground matches Some(c) && c@ == "#101012"@,
        p.dim_foreground@ == "#64646b"@,
        p.black@ == "#1d1d1f"@,
        p.red@ == "#b42318"@,
        p.green@ == "#247238"@,
        p.yellow@ == "#8a5b00"@,
        p.blue@ == "#005fc4"@,
        p.magenta@ == "#8945a6"@,
        p.cyan@ == "#007880"@,
        p.white@ == "#d5d5da"@,
        p.bright_black@ == "#64646b"@,
        p.bright_red@ == "#ce3025"@,
        p.bright_green@ == "#258142"@,
        p.bright_yellow@ == "#986800"@,
        p.bright_blue@ == "#0070df"@,
        p.bright_magenta@ == "#9b43b4"@,
        p.bright_cyan@ == "#00838c"@,
        p.bright_white@ == "#ffffff"@,
        p.dim_black@ == "#48484d"@,
        p.dim_red@ == "#93423b"@,
        p.dim_green@ == "#486d4a"@,
        p.dim_yellow@ == "#756135"@,
        p.dim_blue@ == "#456887"@,
        p.dim_magenta@ == "#765484"@,
        p.dim_cyan@ == "#477477"@,
        p.dim_white@ == "#afafb5"@,
{
    TerminalPalette {
        background: "#ffffff".to_owned(),
        foreground: "#1d1d1f".to_owned(),
        bright_foreground: Some("#101012".to_owned()),
        dim_foreground: "#64646b".to_owned(),
        black: "#1d1d1f".to_owned(),
        red: "#b42318".to_owned(),
        green: "#247238".to_owned(),
        yellow: "#8a5b00".to_owned(),
        blue: "#005fc4".to_owned(),
        magenta: "#8945a6".to_owned(),
        cyan: "#007880".to_owned(),
        white: "#d5d5da".to_owned(),
        bright_black: "#64646b".to_owned(),
        bright_red: "#ce3025".to_owned(),
        bright_green: "#258142".to_owned(),
        bright_yellow: "#986800".to_owned(),
        bright_blue: "#0070df".to_owned(),
        bright_magenta: "#9b43b4".to_owned(),
        bright_cyan: "#00838c".to_owned(),
        bright_white: "#ffffff".to_owned(),
        dim_black: "#48484d".to_owned(),
        dim_red: "#93423b".to_owned(),
        dim_green: "#486d4a".to_owned(),
        dim_yellow: "#756135".to_owned(),
        dim_blue: "#456887".to_owned(),
        dim_magenta: "#765484".to_owned(),
        dim_cyan: "#477477".to_owned(),
        dim_white: "#afafb5".to_owned(),
    }
}

} // verus!
