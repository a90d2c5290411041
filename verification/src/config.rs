//! The overlay's user configuration (`~/.hintshell/config.toml`) and what it decides.
use vstd::prelude::*;
use crate::overlay::OverlayStyle;
use crate::path::spec_join_on;
use crate::shell::{hintshell_home, spec_hintshell_home, Host};
use crate::text::{all_ascii, ascii_lowercase, lowercase, str_eq, to_lowercase, to_string};

verus! {

/// The overlay's settings.
#[derive(Debug, Clone)]
pub struct HintShellConfig {
    /// A colour name, or a theme such as `rainbow` or `apple`.
    pub border_color: String,
    /// The most suggestion rows shown (kept between 3 and 10 when drawn).
    pub max_visible: usize,
    pub ghost_text: bool,
}

pub open spec fn default_border_color() -> Seq<char> {
    "purple"@
}

impl Default for HintShellConfig {
    fn default() -> (r: Self)
        ensures
            r.border_color@ == default_border_color(),
            r.max_visible == 6,
            r.ghost_text,
    {
        HintShellConfig { border_color: to_string("purple"), max_visible: 6, ghost_text: true }
    }
}

/// The theme names that draw the rainbow border.
pub open spec fn is_rainbow_name(n: Seq<char>) -> bool {
    n == "rainbow"@ || n == "gemini"@ || n == "gradient"@ || n == "aurora"@
}

/// The theme names of the neon "apple" border.
pub open spec fn is_apple_name(n: Seq<char>) -> bool {
    n == "apple"@ || n == "siri"@ || n == "apple-intelligence"@ || n == "glow"@ || n == "neon"@
}

/// The colour code of a (lowercased) border colour name; unknown names are purple.
pub open spec fn spec_border_code(n: Seq<char>) -> Seq<char> {
    if n == "blue"@ {
        "\x1b[38;5;75m"@
    } else if n == "cyan"@ {
        "\x1b[38;5;51m"@
    } else if n == "green"@ {
        "\x1b[38;5;48m"@
    } else if n == "yellow"@ || n == "gold"@ {
        "\x1b[38;5;220m"@
    } else if n == "orange"@ {
        "\x1b[38;5;208m"@
    } else if n == "pink"@ || n == "rose"@ {
        "\x1b[38;5;212m"@
    } else if n == "magenta"@ {
        "\x1b[38;5;201m"@
    } else if n == "minimal"@ || n == "gray"@ || n == "grey"@ {
        "\x1b[38;5;244m"@
    } else if n == "red"@ {
        "\x1b[38;5;203m"@
    } else if is_apple_name(n) {
        "\x1b[38;2;0;245;212m"@
    } else {
        "\x1b[38;5;141m"@
    }
}

impl HintShellConfig {
    /// Where the configuration file lives.
    pub fn config_path(host: &Host) -> (r: String)
        ensures
            r@ == spec_join_on(spec_hintshell_home(*host), "config.toml"@, host.windows),
    {
        let home = hintshell_home(host);
        crate::path::join_path_on(home.as_str(), "config.toml", host.windows)
    }

    /// Whether the border is drawn in rainbow colours (names compared case-insensitively).
    pub fn is_rainbow(&self) -> (r: bool)
        ensures
            r == is_rainbow_name(lowercase(self.border_color@)),
            all_ascii(self.border_color@) ==> r == is_rainbow_name(ascii_lowercase(self.border_color@)),
    {
        let n = to_lowercase(self.border_color.as_str());
        let s = n.as_str();
        str_eq(s, "rainbow") || str_eq(s, "gemini") || str_eq(s, "gradient") || str_eq(s, "aurora")
    }

    /// Whether the border uses the neon "apple" theme.
    pub fn is_apple(&self) -> (r: bool)
        ensures
            r == is_apple_name(lowercase(self.border_color@)),
            all_ascii(self.border_color@) ==> r == is_apple_name(ascii_lowercase(self.border_color@)),
    {
        let n = to_lowercase(self.border_color.as_str());
        let s = n.as_str();
        str_eq(s, "apple") || str_eq(s, "siri") || str_eq(s, "apple-intelligence") || str_eq(s, "glow")
            || str_eq(s, "neon")
    }

    /// The colour code of the border.
    pub fn border_ansi_code(&self) -> (r: &'static str)
        ensures
            r@ == spec_border_code(lowercase(self.border_color@)),
            all_ascii(self.border_color@) ==> r@ == spec_border_code(ascii_lowercase(self.border_color@)),
    {
        let n = to_lowercase(self.border_color.as_str());
        let s = n.as_str();
        if str_eq(s, "blue") {
            "\x1b[38;5;75m"
        } else if str_eq(s, "cyan") {
            "\x1b[38;5;51m"
        } else if str_eq(s, "green") {
            "\x1b[38;5;48m"
        } else if str_eq(s, "yellow") || str_eq(s, "gold") {
            "\x1b[38;5;220m"
        } else if str_eq(s, "orange") {
            "\x1b[38;5;208m"
        } else if str_eq(s, "pink") || str_eq(s, "rose") {
            "\x1b[38;5;212m"
        } else if str_eq(s, "magenta") {
            "\x1b[38;5;201m"
        } else if str_eq(s, "minimal") || str_eq(s, "gray") || str_eq(s, "grey") {
            "\x1b[38;5;244m"
        } else if str_eq(s, "red") {
            "\x1b[38;5;203m"
        } else if str_eq(s, "apple") || str_eq(s, "siri") || str_eq(s, "apple-intelligence") || str_eq(
            s,
            "glow",
        ) || str_eq(s, "neon") {
            "\x1b[38;2;0;245;212m"
        } else {
            "\x1b[38;5;141m"
        }
    }

    /// How the overlay is drawn with these settings.
    pub fn overlay_style(&self) -> (r: OverlayStyle)
        ensures
            r.rainbow == is_rainbow_name(lowercase(self.border_color@)),
            r.border@ == spec_border_code(lowercase(self.border_color@)),
            all_ascii(self.border_color@) ==> r.rainbow == is_rainbow_name(ascii_lowercase(self.border_color@))
                && r.border@ == spec_border_code(ascii_lowercase(self.border_color@)),
            r.max_visible == self.max_visible,
    {
        OverlayStyle {
            rainbow: self.is_rainbow(),
            border: to_string(self.border_ansi_code()),
            max_visible: self.max_visible,
        }
    }
}

} // verus!
