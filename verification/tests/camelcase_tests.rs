use game_naming::{camelcase_words, camelcase_word_count};

/// Helper to verify that the camelcase word splitter's output is stable.
fn check_camelcase_words(input: &str, expected: &[&str]) {
    let result = camelcase_words(input);
    assert_eq!(result, expected, "(with input {:?})", input);

    let result_j = result.join(" ");
    assert_eq!(camelcase_words(&result_j), result,
               "camelcase_words should be a no-op when re-run on its own output");

    assert_eq!(camelcase_word_count(input), expected.len());
}

#[test]
fn camelcase_words_basic_function() {
    check_camelcase_words("fooBar", &["foo", "Bar"]);
    check_camelcase_words("FooBar", &["Foo", "Bar"]);
    check_camelcase_words("AndroidVM", &["Android", "VM"]);
    check_camelcase_words("RARFile", &["RAR", "File"]);
    check_camelcase_words("ADruidsDuel", &["A", "Druids", "Duel"]);
    check_camelcase_words("PickACard", &["Pick", "A", "Card"]);
    check_camelcase_words("AxelF", &["Axel", "F"]);
}

#[test]
fn camelcase_words_leaves_capitalization_alone() {
    check_camelcase_words("foo", &["foo"]);
    check_camelcase_words("Foo", &["Foo"]);
    check_camelcase_words("fooBar", &["foo", "Bar"]);
    check_camelcase_words("FooBar", &["Foo", "Bar"]);
    check_camelcase_words("foo bar", &["foo", "bar"]);
    check_camelcase_words("Foo Bar", &["Foo", "Bar"]);
}

#[test]
fn camelcase_words_ascii_number_handling() {
    check_camelcase_words("6LittleEggs", &["6", "Little", "Eggs"]);
    check_camelcase_words("the12chairs", &["the", "12", "chairs"]);
    check_camelcase_words("The12Chairs", &["The", "12", "Chairs"]);
    check_camelcase_words("1.5 Children", &["1.5", "Children"]);
    check_camelcase_words("The1.5Children", &["The", "1.5", "Children"]);
    check_camelcase_words("the1.5children", &["the", "1.5", "children"]);
    check_camelcase_words("Version1.1", &["Version", "1.1"]);
    check_camelcase_words("catch22", &["catch", "22"]);
    check_camelcase_words("Catch22", &["Catch", "22"]);
    check_camelcase_words("1Two3", &["1", "Two", "3"]);
    check_camelcase_words("One2Three", &["One", "2", "Three"]);
    check_camelcase_words("ONE2", &["ONE", "2"]);
    check_camelcase_words("ONE2THREE", &["ONE", "2", "THREE"]);
}

#[test]
fn camelcase_words_basic_unicode_handling() {
    check_camelcase_words("\u{1D7DE}ŁittléEggs", &["\u{1D7DE}", "Łittlé", "Eggs"]);
    check_camelcase_words("ⅥŁittłeEggs", &["Ⅵ", "Łittłe", "Eggs"]);
    check_camelcase_words("➅LittleEggs", &["➅", "Little", "Eggs"]);
    check_camelcase_words("\u{1D7DE} Łittlé Eggs", &["\u{1D7DE}", "Łittlé", "Eggs"]);
    check_camelcase_words("Ⅵ Łittłe Eggs", &["Ⅵ", "Łittłe", "Eggs"]);
    check_camelcase_words("➅ Little Eggs", &["➅", "Little", "Eggs"]);
}

#[test]
fn camelcase_words_titlecase_handling() {
    check_camelcase_words("ǅ", &["ǅ"]);
    check_camelcase_words("ǅxx", &["ǅxx"]);
    check_camelcase_words("ǅX", &["ǅ", "X"]);
    check_camelcase_words("Xǅ", &["X", "ǅ"]);
    check_camelcase_words("Xxǅ", &["Xx", "ǅ"]);
    check_camelcase_words("ǅXx", &["ǅ", "Xx"]);
    check_camelcase_words("1ǅ2", &["1", "ǅ", "2"]);
}

#[test]
fn camelcase_words_ampersand_handling() {
    check_camelcase_words("TheKing&I", &["The", "King", "&", "I"]);
    check_camelcase_words("TheKing﹠I", &["The", "King", "﹠", "I"]);
    check_camelcase_words("TheKing＆I", &["The", "King", "＆", "I"]);
    check_camelcase_words("TheKing\u{1F674}I", &["The", "King", "\u{1F674}", "I"]);
    check_camelcase_words("A&b", &["A", "&", "b"]);
    check_camelcase_words("A﹠b", &["A", "﹠", "b"]);
    check_camelcase_words("A＆b", &["A", "＆", "b"]);
    check_camelcase_words("A\u{1F674}b", &["A", "\u{1F674}", "b"]);
    check_camelcase_words("1&2", &["1", "&", "2"]);
    check_camelcase_words("ǅ&ǅ", &["ǅ", "&", "ǅ"]);
    check_camelcase_words("Forsooth&'tisTrue", &["Forsooth", "&", "'tis", "True"]);
}

#[test]
fn camelcase_words_apostrophe_handling() {
    check_camelcase_words("Don'tMove", &["Don't", "Move"]);
    check_camelcase_words("Don\u{2019}tMove", &["Don\u{2019}t", "Move"]);
    check_camelcase_words("Don\u{FF07}tMove", &["Don\u{FF07}t", "Move"]);
    check_camelcase_words("It's my kids' kids'", &["It's", "my", "kids'", "kids'"]);
    check_camelcase_words("it\u{2019}s my kids\u{2019} kids\u{2019}",
                          &["it\u{2019}s", "my", "kids\u{2019}", "kids\u{2019}"]);
    check_camelcase_words("it\u{FF07}s my kids\u{FF07} kids\u{FF07}",
                          &["it\u{FF07}s", "my", "kids\u{FF07}", "kids\u{FF07}"]);
}

#[test]
fn camelcase_words_open_close_plus_upper_lower() {
    check_camelcase_words("Test [Hello]", &["Test", "[Hello]"]);
    check_camelcase_words("Test (Hello)", &["Test", "(Hello)"]);
    check_camelcase_words("Test {Hello}", &["Test", "{Hello}"]);
    check_camelcase_words("Test «Hello»", &["Test", "«Hello»"]);
    check_camelcase_words("Test <Hello>", &["Test", "<Hello>"]);
    check_camelcase_words("Test ﹤Hello﹥", &["Test", "﹤Hello﹥"]);
    check_camelcase_words("Test ＜Hello＞", &["Test", "＜Hello＞"]);
}

#[test]
fn camelcase_words_open_close_handling() {
    check_camelcase_words("Who?Him!Really?Yeah!", &["Who?", "Him!", "Really?", "Yeah!"]);
    check_camelcase_words("100%Juice", &["100%", "Juice"]);
    check_camelcase_words("WeAre#1", &["We", "Are", "#1"]);
    check_camelcase_words("ShadowWarrior(2013)", &["Shadow", "Warrior", "(2013)"]);
    check_camelcase_words("Testy<foo>", &["Testy", "<foo>"]);
    check_camelcase_words("Testy﹤foo﹥", &["Testy", "﹤foo﹥"]);
    check_camelcase_words("Testy＜foo＞", &["Testy", "＜foo＞"]);
    check_camelcase_words("Testy«foo»", &["Testy", "«foo»"]);
    check_camelcase_words("SallyFace[linux]", &["Sally", "Face", "[linux]"]);
    check_camelcase_words("SallyFace[Linux]", &["Sally", "Face", "[Linux]"]);
    check_camelcase_words("TestyFoo{Bar}Baz", &["Testy", "Foo", "{Bar}", "Baz"]);
    check_camelcase_words("ShadowWarrior\u{FF08}2013\u{FF09}",
                          &["Shadow", "Warrior", "\u{FF08}2013\u{FF09}"]);
    check_camelcase_words("[ǅxx]", &["[ǅxx]"]);
    check_camelcase_words(" [ǅxx] ", &["[ǅxx]"]);
}

#[test]
fn camelcase_words_doesnt_subdivide_numbers() {
    check_camelcase_words("3.14", &["3.14"]);
    check_camelcase_words("255", &["255"]);
    check_camelcase_words("1000000", &["1000000"]);
    check_camelcase_words("ut2003", &["ut", "2003"]);
}

#[test]
fn camelcase_words_unicode_segmentation() {
    // Zalgo text generated using http://eeemo.net/
    check_camelcase_words("f̴͘͟͜ǫ̴̸̧͘ó̵̢̢͏B̴̨͠á̵̸͡r̶̵͢͠", &["f̴͘͟͜ǫ̴̸̧͘ó̵̢̢͏", "B̴̨͠á̵̸͡r̶̵͢͠"]);
    check_camelcase_words("Ŕ̀̕͟͞À̸̛͞͞Ŕ̨̕F̕͜͟͠í̵͜l҉̨e̶̵", &["Ŕ̀̕͟͞À̸̛͞͞Ŕ̨̕", "F̕͜͟͠í̵͜l҉̨e̶̵"]);
    check_camelcase_words("P̕͟͠i҉͢c̨̨͞͡ḱ̸̕Ą̸Ç͘͜a͘͟r̀͟͢҉̵d̕͜", &["P̕͟͠i҉͢c̨̨͞͡ḱ̸̕", "Ą̸", "Ç͘͜a͘͟r̀͟͢҉̵d̕͜"]);
    check_camelcase_words("6̢L̢͏͏͠i̷̛͜t̷̕t̷͟ļ͟͢ȩ̨̕̕È̷̸g̵̷̨͢͡g̷s͟͞", &["6̢", "L̢͏͏͠i̷̛͜t̷̕t̷͟ļ͟͢ȩ̨̕̕", "È̷̸g̵̷̨͢͡g̷s͟͞"]);
    check_camelcase_words("t̶̨͞h̨͝͝e̡͟͢1̴̧̀͘͟2͘͘c̷̴̢͘h̶̴̢͢à͘͏i̡̛r͜s̷͏", &["t̶̨͞h̨͝͝e̡͟͢", "1̴̧̀͘͟2͘͘", "c̷̴̢͘h̶̴̢͢à͘͏i̡̛r͜s̷͏"]);
    check_camelcase_words("T̶͡ḩ̷̷͟ȩ̛́͘͡1̵̨̕͢2̕͝C̸̡͞͏͟h̴̵̀a҉͜͢i̵̸̡̕ŗ̴͢s̴͏͘͡", &["T̶͡ḩ̷̷͟ȩ̛́͘͡", "1̵̨̕͢2̕͝", "C̸̡͞͏͟h̴̵̀a҉͜͢i̵̸̡̕ŗ̴͢s̴͏͘͡"]);
    check_camelcase_words("T͠҉̸̷h̀͡e̡̨͝͠1̴́͏.͏̨́͠͝5̨́̕C̷͜͏͠h̢̧͝ì̡̢̕l̸͞͡d̵̕͢͡ŕ̶͘͡͞e͜͝n̨҉̕", &["T͠҉̸̷h̀͡e̡̨͝͠", "1̴́͏.͏̨́͠͝5̨́̕", "C̷͜͏͠h̢̧͝ì̡̢̕l̸͞͡d̵̕͢͡ŕ̶͘͡͞e͜͝n̨҉̕"]);
    check_camelcase_words("t̡̛͟h͏҉҉́è͝͠1̢̕͟͟.̶̛5̶͜ć̀ḩ̶̸̕͜i̸̕͢l̢͡͝͝͏d͘͟r̨͢e̢҉̵͞͠n̛", &["t̡̛͟h͏҉҉́è͝͠", "1̢̕͟͟.̶̛5̶͜", "ć̀ḩ̶̸̕͜i̸̕͢l̢͡͝͝͏d͘͟r̨͢e̢҉̵͞͠n̛"]);
    check_camelcase_words("V̶͞e̡͜͟͠r̢͟s̀͏̧̢̕i̸̧͞͠o̷̸̧n̡͞1̧̀͘͟͞.̸̕1́͞҉", &["V̶͞e̡͜͟͠r̢͟s̀͏̧̢̕i̸̧͞͠o̷̸̧n̡͞", "1̧̀͘͟͞.̸̕1́͞҉"]);
    check_camelcase_words("A̴&͏̵̛b͝", &["A̴", "&͏̵̛", "b͝"]);
    check_camelcase_words("u̢҉͡t̸̷̛2̶͏͡0́̕҉̶0̡͞͡3̴̷͟", &["u̢҉͡t̸̷̛", "2̶͏͡0́̕҉̶0̡͞͡3̴̷͟"]);
}
