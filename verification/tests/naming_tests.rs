use game_naming::{camelcase_to_spaces, titlecase_up, apply_camelcase_fixups, filename_extensionless};

#[test]
fn it_works() {}

#[test]
fn camelcase_to_spaces_basic_function() {
    assert_eq!(camelcase_to_spaces("fooBar"), "foo Bar");
    assert_eq!(camelcase_to_spaces("FooBar"), "Foo Bar");
    assert_eq!(camelcase_to_spaces("AndroidVM"), "Android VM");
    assert_eq!(camelcase_to_spaces("RARFile"), "RAR File");
    assert_eq!(camelcase_to_spaces("ADruidsDuel"), "A Druids Duel");
    assert_eq!(camelcase_to_spaces("PickACard"), "Pick A Card");
}

#[test]
fn camelcase_to_spaces_leaves_capitalization_alone() {
    assert_eq!(camelcase_to_spaces("foo"), "foo");
    assert_eq!(camelcase_to_spaces("Foo"), "Foo");
    assert_eq!(camelcase_to_spaces("fooBar"), "foo Bar");
    assert_eq!(camelcase_to_spaces("FooBar"), "Foo Bar");
    assert_eq!(camelcase_to_spaces("foo bar"), "foo bar");
    assert_eq!(camelcase_to_spaces("Foo Bar"), "Foo Bar");
}

#[test]
fn camelcase_to_spaces_ascii_number_handling() {
    assert_eq!(camelcase_to_spaces("6LittleEggs"), "6 Little Eggs");
    assert_eq!(camelcase_to_spaces("6 Little Eggs"), "6 Little Eggs");
    assert_eq!(camelcase_to_spaces("the12chairs"), "the 12 chairs");
    assert_eq!(camelcase_to_spaces("The12Chairs"), "The 12 Chairs");
    assert_eq!(camelcase_to_spaces("The 12 Chairs"), "The 12 Chairs");
    assert_eq!(camelcase_to_spaces("1.5 Children"), "1.5 Children");
    assert_eq!(camelcase_to_spaces("The1.5Children"), "The 1.5 Children");
    assert_eq!(camelcase_to_spaces("the1.5children"), "the 1.5 children");
    assert_eq!(camelcase_to_spaces("Version1.1"), "Version 1.1");
    assert_eq!(camelcase_to_spaces("Version 1.1"), "Version 1.1");
    assert_eq!(camelcase_to_spaces("catch22"), "catch 22");
    assert_eq!(camelcase_to_spaces("Catch 22"), "Catch 22");
    assert_eq!(camelcase_to_spaces("1Two3"), "1 Two 3");
    assert_eq!(camelcase_to_spaces("One2Three"), "One 2 Three");
}

#[test]
fn camelcase_to_spaces_basic_unicode_handling() {
    assert_eq!(camelcase_to_spaces("\u{1D7DE}ŁittléEggs"), "\u{1D7DE} Łittlé Eggs");
    assert_eq!(camelcase_to_spaces("ⅥŁittłeEggs"), "Ⅵ Łittłe Eggs");
    assert_eq!(camelcase_to_spaces("➅LittleEggs"), "➅ Little Eggs");
    assert_eq!(camelcase_to_spaces("\u{1D7DE} Łittlé Eggs"), "\u{1D7DE} Łittlé Eggs");
    assert_eq!(camelcase_to_spaces("Ⅵ Łittłe Eggs"), "Ⅵ Łittłe Eggs");
    assert_eq!(camelcase_to_spaces("➅ Little Eggs"), "➅ Little Eggs");
}

#[test]
fn camelcase_to_spaces_titlecase_handling() {
    assert_eq!(camelcase_to_spaces("ǅ"), "ǅ");
    assert_eq!(camelcase_to_spaces("ǅxx"), "ǅxx");
    assert_eq!(camelcase_to_spaces("ǅX"), "ǅ X");
    assert_eq!(camelcase_to_spaces("Xǅ"), "X ǅ");
    assert_eq!(camelcase_to_spaces("Xxǅ"), "Xx ǅ");
    assert_eq!(camelcase_to_spaces("ǅXx"), "ǅ Xx");
    assert_eq!(camelcase_to_spaces("1ǅ2"), "1 ǅ 2");
}

#[test]
fn camelcase_to_spaces_ampersand_handling() {
    assert_eq!(camelcase_to_spaces("TheKing&I"), "The King & I");
    assert_eq!(camelcase_to_spaces("TheKing﹠I"), "The King ﹠ I");
    assert_eq!(camelcase_to_spaces("TheKing＆I"), "The King ＆ I");
    assert_eq!(camelcase_to_spaces("TheKing\u{1F674}I"), "The King \u{1F674} I");
    assert_eq!(camelcase_to_spaces("A&b"), "A & b");
    assert_eq!(camelcase_to_spaces("A﹠b"), "A ﹠ b");
    assert_eq!(camelcase_to_spaces("A＆b"), "A ＆ b");
    assert_eq!(camelcase_to_spaces("A\u{1F674}b"), "A \u{1F674} b");
    assert_eq!(camelcase_to_spaces("1&2"), "1 & 2");
    assert_eq!(camelcase_to_spaces("ǅ&ǅ"), "ǅ & ǅ");
}

#[test]
fn camelcase_to_spaces_doesnt_subdivide_numbers() {
    assert_eq!(camelcase_to_spaces("3.14"), "3.14");
    assert_eq!(camelcase_to_spaces("255"), "255");
    assert_eq!(camelcase_to_spaces("1000000"), "1000000");
    assert_eq!(camelcase_to_spaces("ut2003"), "ut 2003");
}

fn check_titlecase_up(input: &str, expected: &str) {
    let result = titlecase_up(input);
    assert_eq!(result, expected, "(with input {:?})", input);
    assert_eq!(titlecase_up(&result), result,
               "titlecase_up should be a no-op when re-run on its own output");
}

#[test]
fn naming_titlecase_up_basic_functionality() {
    check_titlecase_up("hello", "Hello");                             // One word
    check_titlecase_up("testtesttest", "Testtesttest");               // One compound word
    check_titlecase_up("1234567890", "1234567890");                   // All numeric
    check_titlecase_up("foo_bar_baz_quux", "Foo_Bar_Baz_Quux");       // Lower with underscores
    check_titlecase_up("foo-bar-baz-quux", "Foo-Bar-Baz-Quux");       // Lower with dashes
    check_titlecase_up("bit.trip.runner", "Bit.Trip.Runner");         // Lower with periods
    check_titlecase_up("green eggs and spam", "Green Eggs And Spam"); // Lower with spaces
    check_titlecase_up("ScummVM", "ScummVM");                         // Unusual capitalization
    check_titlecase_up("FTL", "FTL");                                 // All-uppercase acronym
}

#[test]
fn mod_titlecase_up_basic_functionality() {
    check_titlecase_up("hello", "Hello");
    check_titlecase_up("testtesttest", "Testtesttest");
    check_titlecase_up("1234567890", "1234567890");
    check_titlecase_up("foo_bar_baz_quux", "Foo_Bar_Baz_Quux");
    check_titlecase_up("foo-bar-baz-quux", "Foo-Bar-Baz-Quux");
    check_titlecase_up("bit.trip.runner", "Bit.Trip.Runner");
    check_titlecase_up("green eggs and spam", "Green Eggs And Spam");
    check_titlecase_up("ScummVM", "ScummVM");
    check_titlecase_up("FTL", "FTL");
}

fn check_apply_camelcase_fixups(input: &str, expected: &str) {
    let result = apply_camelcase_fixups(input);
    assert_eq!(result, expected, "(with input {:?})", input);
    assert_eq!(apply_camelcase_fixups(&result), result,
               "apply_camelcase_fixups should be a no-op when re-run on its own output");
}

#[test]
fn apply_camelcase_fixups_basic_functionality() {
    check_apply_camelcase_fixups("Andro V Mplayer", "AndroVMplayer");
    check_apply_camelcase_fixups("Badland Got Y 121", "Badland GotY 121");
    check_apply_camelcase_fixups("Darwin S Dinner", "Darwin's Dinner");
    check_apply_camelcase_fixups("Defender S Quest", "Defender's Quest");
    check_apply_camelcase_fixups("Don T Starve", "Don't Starve");
    check_apply_camelcase_fixups("Drod RPG Tendry S Tale", "Drod RPG Tendry's Tale");
    check_apply_camelcase_fixups("Edna Harvey Harvey S New Eyes",
                                 "Edna Harvey Harvey's New Eyes");
    check_apply_camelcase_fixups("Jack S Gang", "Jack's Gang");
    check_apply_camelcase_fixups("Kith Tales from the Fractured Plateaus Issue 1",
                                 "Kith Tales from the Fractured Plateaus: Issue 1");
    check_apply_camelcase_fixups("Mac Gyver", "MacGyver");
    check_apply_camelcase_fixups("Mac Venture", "MacVenture");
    check_apply_camelcase_fixups("Mc Pixel", "McPixel");
    check_apply_camelcase_fixups("Open TTD", "OpenTTD");
    check_apply_camelcase_fixups("Scumm VM", "ScummVM");
    check_apply_camelcase_fixups("Sid Meiers Covert Action", "Sid Meier's Covert Action");
    check_apply_camelcase_fixups("Star Wars Rebel Assault", "Star Wars: Rebel Assault");
    check_apply_camelcase_fixups("Tachyon Reef 3 D Prototype", "Tachyon Reef 3D Prototype");
    check_apply_camelcase_fixups("Wasteland 1 - The Original Classic",
                                 "Wasteland 1: The Original Classic");
    check_apply_camelcase_fixups("IN Vedit", "INVedit");
}

#[test]
fn filename_extensionless_basic_functionality() {
    for prefix in &["", "."] {
        for fname in &["readme", "read.me", "readme.1st"] {
            let expected = (prefix.to_string()) + fname;
            for ext in &["", ".txt", ".txt.gz"] {
                assert_eq!(&filename_extensionless(&(expected.clone() + ext)), &expected);
            }
        }
    }
}
