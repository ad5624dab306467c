use zet::style::{always, auto_sheet, colored, display_width, never, ColorChoice};
use zet::styles::{app_name, as_item, as_title, Shade};

#[test]
fn test_display_width() {
    let contents = "abc";
    for choice in [always(), never()] {
        assert_eq!(display_width(&choice.app_name(&contents)), contents.len());
        assert_eq!(display_width(&choice.item(&contents)), contents.len());
        assert_eq!(display_width(&choice.title(&contents)), contents.len());
    }
}

#[test]
fn test_len() {
    let contents = "abc";
    assert_eq!(app_name(contents).len(), contents.len());
    assert_eq!(as_item(contents).len(), contents.len());
    assert_eq!(as_title(contents).len(), contents.len());
}

#[test]
fn style_sheets_wrap_text_in_escape_codes_or_nothing() {
    assert_eq!(always().app_name("zet"), "\x1B[32;1mzet\x1B[m");
    assert_eq!(always().item("x"), "\x1B[32mx\x1B[m");
    assert_eq!(always().title("T"), "\x1B[33mT\x1B[m");
    assert_eq!(never().item("x"), "x");
    assert_eq!(display_width("plain text"), 10);
}

#[test]
fn color_choice_picks_the_style_sheet() {
    assert_eq!(colored(ColorChoice::Always, None).item("x"), always().item("x"));
    assert_eq!(colored(ColorChoice::Never, Some(always())).item("x"), "x");
    assert_eq!(colored(ColorChoice::Auto, None).item("x"), "x");
    assert_eq!(colored(ColorChoice::Auto, Some(auto_sheet(true))).item("x"), always().item("x"));
    assert_eq!(auto_sheet(false).title("t"), "t");
}

#[test]
fn styled_strings_know_their_indent_and_shade() {
    let item = as_item("   --x  ");
    assert_eq!(item.indented_by(), 3);
    assert_eq!(item.prefix(), Shade::Green);
    assert_eq!(app_name("zet").prefix(), Shade::BoldGreen);
    assert_eq!(as_title("T").prefix(), Shade::Yellow);
    assert_eq!(as_item("    ").indented_by(), 4);
    assert_eq!(as_item("").indented_by(), 0);
    assert_eq!(item.content(), "   --x  ");
}

#[test]
fn styled_strings_render_with_ansi_codes() {
    assert_eq!(as_item("x").rendered(), "\x1B[32mx\x1B[0m");
    assert_eq!(as_title("T").rendered(), "\x1B[33mT\x1B[0m");
    assert_eq!(app_name("zet").rendered(), "\x1B[1m\x1B[32mzet\x1B[0m");
}

#[test]
fn styled_text_has_the_width_of_the_text() {
    for s in ["héllo wörld", "", "m", "a m b"] {
        for choice in [always(), never()] {
            assert_eq!(display_width(&choice.app_name(s)), s.len());
            assert_eq!(display_width(&choice.item(s)), s.len());
            assert_eq!(display_width(&choice.title(s)), s.len());
        }
    }
}
