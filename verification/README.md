# nepali

Recovers Nepali (Devanagari) text from PDFs: legacy 8-bit keyboard fonts, and
glyph runs that are stored in the order they are drawn. Every function of the
library states what it computes, and Verus proves it.

| module | what it does |
| --- | --- |
| `font_name`, `font_name_laws` | tells a legacy layout by the name of its font |
| `tables` | the keyboard layouts and the ordered rewrites |
| `legacy` | substitutes the bytes of a legacy font |
| `post_rules`, `pattern` | rewrites legacy-decoded words into well-formed text |
| `reorder`, `script` | glyph order to logical order |
| `glyph_map` | the texts of the glyphs of an embedded font |
| `cmap`, `digits`, `gsub`, `glyphs` | its parts: character map, digit row, substitutions, naming |
| `font_tables` | finds the tables of a font file that are read |
| `font_file` | what the font parser reads out of those tables |
| `preflight` | tells what of a font can be handed to the parser |
| `cff`, `outlines`, `dict` | the same of the programs of compact outlines, which it follows |
| `text` | strings and their characters |

What is not proved is what the libraries underneath do: `font_tables`,
`font_file` and `pattern` name the results of `ttf-parser` and `regex`, and each
function there says in its comment what it takes on trust. `text` and `cmap` state the same of
a few functions of `std`.

`app/` compiles the rewrites once per process.
