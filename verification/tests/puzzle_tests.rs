use workshop::baking::BakeData;
use workshop::elves;
use workshop::folding::{self, PathError};
use workshop::greeting;
use workshop::nice::{GameOutcome, Verdict};
use workshop::orders::{Order, Region};
use workshop::pixels;
use workshop::reindeer::{contest, total_strength, ContestEntry, ContestResult, Reindeer};
use workshop::slicing;
use workshop::stars;
use workshop::store::TextStore;

#[test]
fn test_day01_get() {
    assert_eq!(folding::sled_id("10/"), Ok(String::from("1000")));
    assert_eq!(folding::sled_id("4/5/8/10"), Ok(String::from("27")));
}

#[test]
fn test_day01_get_not_parseable() {
    assert_eq!(folding::sled_id("2/a/3/"), Err(PathError::Unparseable));
}

#[test]
fn test_day01_get_max_length() {
    assert_eq!(
        folding::sled_id("1/2/3/4/5/6/7/8/9/0/1/2/3/4/5/6/7/8/9/0"),
        Ok(String::from("0"))
    );
    assert_eq!(
        folding::sled_id("1/2/3/4/5/6/7/8/9/0/1/2/3/4/5/6/7/8/9/0/1"),
        Err(PathError::TooLong)
    );
}

fn named(name: &str, strength: i32) -> Reindeer {
    Reindeer { name: String::from(name), strength }
}

#[test]
fn test_day04_post() {
    let roster = vec![
        named("Rudolph", 10),
        named("Dasher", 20),
        named("Dancer", 30),
        named("Prancer", 40),
        named("Vixen", 50),
        named("Comet", 60),
        named("Cupid", 70),
        named("Donner", 80),
        named("Blitzen", 90),
    ];
    assert_eq!(total_strength(&roster), String::from("450"));
}

#[test]
fn test_day04_post_contest() {
    let entries = vec![
        ContestEntry {
            name: String::from("Dasher"),
            strength: 5,
            height: 80,
            antler_width: 36,
            snow_magic_power: 9001,
            favorite_food: String::from("hay"),
            candies_eaten_yesterday: 2,
        },
        ContestEntry {
            name: String::from("Dancer"),
            strength: 6,
            height: 65,
            antler_width: 37,
            snow_magic_power: 4004,
            favorite_food: String::from("grass"),
            candies_eaten_yesterday: 5,
        },
    ];
    // the speeds were 50.4 and 48.2: the first entry is the fastest
    let result = contest(&entries, 0).expect("Should be ok");
    let expected = ContestResult {
        fastest: String::from("Speeding past the finish line with a strength of 5 is Dasher"),
        tallest: String::from("Dasher is standing tall with his 36 cm wide antlers"),
        magician: String::from("Dasher could blast you away with a snow magic power of 9001"),
        consumer: String::from("Dancer ate lots of candies, but also some grass"),
    };
    assert_eq!(result, expected);
}

#[test]
fn test_day06_post() {
    let answer = elves::analyze_elves(
        "The mischievous elf peeked out from behind the toy workshop,
                             and another elf joined in the festive dance.
                             Look, there is also an elf on that shelf!",
    );
    assert_eq!(answer.elf, 4);
}

#[test]
fn test_day06_contest_post() {
    let answer = elves::analyze_elves(
        "there is an elf on a shelf on an elf.
                                                    there is also another shelf in Belfast.",
    );
    assert_eq!(answer.elf, 5);
    assert_eq!(answer.elf_shelf, 1);
    assert_eq!(answer.shelf_no_elf, 1);
}

#[test]
fn test_day07() {
    let cookie = String::from("eyJmbG91ciI6MTAwLCJjaG9jb2xhdGUgY2hpcHMiOjIwfQ==");
    let decoded = workshop::baking::decode_cookie(&cookie).expect("Should be ok");
    assert_eq!(decoded, String::from("{\"flour\":100,\"chocolate chips\":20}"));
}

fn pantry_entry(name: &str, amount: i64) -> (String, i64) {
    (String::from(name), amount)
}

#[test]
fn test_day07_bake() {
    // the recipe and pantry of the bake cookie, already parsed
    let recipe = vec![
        pantry_entry("flour", 95),
        pantry_entry("sugar", 50),
        pantry_entry("butter", 30),
        pantry_entry("baking powder", 10),
        pantry_entry("chocolate chips", 50),
    ];
    let pantry = vec![
        pantry_entry("flour", 385),
        pantry_entry("sugar", 507),
        pantry_entry("butter", 2122),
        pantry_entry("baking powder", 865),
        pantry_entry("chocolate chips", 457),
    ];
    let mut data = BakeData::new(recipe, pantry);
    let result = data.bake();
    assert_eq!(result.cookies, 4);
    let find = |name: &str, entries: &Vec<(String, i64)>| -> i64 {
        entries
            .iter()
            .find(|e| e.0 == name)
            .map(|e| e.1)
            .expect("ingredient is on the shelf")
    };
    assert_eq!(find("butter", &result.pantry), 2002);
    assert_eq!(find("sugar", &result.pantry), 307);
    assert_eq!(find("flour", &result.pantry), 5);
    assert_eq!(find("baking powder", &result.pantry), 825);
    assert_eq!(find("chocolate chips", &result.pantry), 257);
}

#[test]
fn test_hello_world() {
    assert_eq!(greeting::hello_world(), "Hello, world!");
}

#[test]
fn test_day05_slicing() {
    let names: Vec<String> = ["Ava", "Caleb", "Mia", "Owen", "Lily", "Ethan", "Zoe"]
        .iter()
        .map(|s| String::from(*s))
        .collect();
    let section = slicing::slice_section(&names, 3, names.len());
    assert_eq!(section, vec![
        String::from("Owen"),
        String::from("Lily"),
        String::from("Ethan"),
        String::from("Zoe"),
    ]);
    let window = slicing::slice_section(&names, 1, 2);
    assert_eq!(window, vec![String::from("Caleb"), String::from("Mia")]);
    let chunks = slicing::chunk_strings(&names, 3);
    assert_eq!(chunks.len(), 3);
    assert_eq!(chunks[0], vec![
        String::from("Ava"),
        String::from("Caleb"),
        String::from("Mia"),
    ]);
    assert_eq!(chunks[2], vec![String::from("Zoe")]);
}

#[test]
fn test_day15_password() {
    let nice = |s: &str| matches!(workshop::nice::password_nice(s), Verdict::Nice);
    assert!(nice("vattyru"));
    assert!(nice("aaa"));
    assert!(!nice("utatb"));
    assert!(!nice("abaa"));
    assert!(!nice("cdaa"));
    assert!(!nice("pqaa"));
    assert!(!nice("xyaa"));
}

#[test]
fn test_day15_game() {
    assert_eq!(workshop::nice::password_game("mario"), GameOutcome::TooShort);
    assert_eq!(workshop::nice::password_game("mariobro"), GameOutcome::MissingVariety);
    assert_eq!(workshop::nice::password_game("EEEEEEEEEEE"), GameOutcome::MissingVariety);
    assert_eq!(workshop::nice::password_game("E3E3E3E3E3E"), GameOutcome::MissingVariety);
    assert_eq!(workshop::nice::password_game("e3E3e#eE#ee3#EeE3"), GameOutcome::FewDigits);
    assert_eq!(workshop::nice::password_game("Password12345"), GameOutcome::BadMath);
    assert_eq!(workshop::nice::password_game("2 00 2 3 OOgaBooga"), GameOutcome::BadMath);
    assert_eq!(
        workshop::nice::password_game("2+2/2-8*8 = 1-2000 OOgaBooga"),
        GameOutcome::NoJoy
    );
    assert_eq!(workshop::nice::password_game("2000.23.A yoyoj"), GameOutcome::NoJoy);
    assert_eq!(workshop::nice::password_game("2000.23.A joy joy"), GameOutcome::NoJoy);
    assert_eq!(workshop::nice::password_game("2000.23.A joyo"), GameOutcome::NoJoy);
    assert_eq!(
        workshop::nice::password_game("2000.23.A j  ;)  o  ;)  y"),
        GameOutcome::NoSandwich
    );
    assert_eq!(
        workshop::nice::password_game("2000.23.A j  ;)  o  ;)  y AzA"),
        GameOutcome::OutOfRange
    );
    assert_eq!(
        workshop::nice::password_game("2000.23.A j  ;)  o  ;)  y \u{2984}AzA"),
        GameOutcome::NoEmoji
    );
    // the final rule inspects the SHA-256 digest: find one password whose
    // digest ends in the lucky digit and one whose does not
    let candidate = |k: usize| {
        format!(
            "2000.23.A j {} \u{1F600} o # y \u{2984}AzA",
            "#".repeat(k)
        )
    };
    let ends_in_a = |s: &str| {
        let mut hasher = <sha2::Sha256 as sha2::Digest>::new();
        sha2::Digest::update(&mut hasher, s.as_bytes());
        hex::encode(sha2::Digest::finalize(hasher)).ends_with("a")
    };
    let lucky = (0..256).map(candidate).find(|c| ends_in_a(c)).unwrap();
    let unlucky = (0..256).map(candidate).find(|c| !ends_in_a(c)).unwrap();
    assert_eq!(workshop::nice::password_game(lucky.as_str()), GameOutcome::Nice);
    assert_eq!(workshop::nice::password_game(unlucky.as_str()), GameOutcome::NotBrewing);
    assert_eq!(GameOutcome::Nice.status(), 200);
    assert_eq!(GameOutcome::NotBrewing.status(), 418);
    assert_eq!(GameOutcome::Nice.reason(), String::from("that's a nice password"));
    assert_eq!(Verdict::from_str("nice").as_str(), String::from("nice"));
    assert_eq!(Verdict::from_str("other").as_str(), String::from("naughty"));
}

#[test]
fn test_day22_integers() {
    let lines: Vec<String> = ["888", "77", "888", "22", "77"]
        .iter()
        .map(|s| String::from(*s))
        .collect();
    assert_eq!(workshop::folding::xor_of_lines(&lines), Some(22));
    let bad: Vec<String> = [String::from("12"), String::from("x")].to_vec();
    assert_eq!(workshop::folding::xor_of_lines(&bad), None);
    assert_eq!(workshop::folding::repeat_char('\u{1F381}', 3), String::from("\u{1F381}\u{1F381}\u{1F381}"));
}

#[test]
fn test_day22_portals() {
    let pairs: Vec<(u32, u32)> = vec![(0, 1), (2, 4), (3, 4), (1, 2), (2, 3), (4, 1)];
    let m = stars::get_portal_paths(&pairs);
    assert_eq!(m.get(&2), Some(&vec![4u32, 3u32]));
    let (path, jumps) = stars::shortest_route_jumps(&pairs, 5).expect("a route exists");
    assert_eq!(path.first(), Some(&0u32));
    assert_eq!(path.last(), Some(&4u32));
    assert_eq!(jumps, 3);
    // no route to an unreachable star
    let lonely: Vec<(u32, u32)> = vec![(1, 2)];
    assert!(stars::shortest_route_jumps(&lonely, 3).is_none());
}

#[test]
fn test_day11_red_pixels() {
    let pixels = vec![
        (255u8, 0u8, 0u8),
        (100u8, 40u8, 59u8),
        (100u8, 50u8, 50u8),
        (0u8, 0u8, 0u8),
    ];
    assert_eq!(pixels::count_red_pixels(&pixels), 2);
}

#[test]
fn test_day13_orders() {
    let order = |gift: &str, region_id: i32, quantity: i32| Order {
        id: 0,
        region_id,
        gift_name: String::from(gift),
        quantity,
    };
    let orders = vec![
        order("toy train", 1, 5),
        order("doll", 2, 8),
        order("toy train", 2, 4),
    ];
    assert_eq!(workshop::orders::total_quantity(&orders), 17);
    assert_eq!(
        workshop::orders::popular_gift(&orders),
        Some(String::from("toy train"))
    );
    assert_eq!(workshop::orders::popular_gift(&Vec::new()), None);
    let regions = vec![
        Region { id: 1, name: String::from("north") },
        Region { id: 2, name: String::from("south") },
    ];
    assert_eq!(
        workshop::orders::region_total_exec(&orders, &regions, "south"),
        12
    );
    assert_eq!(
        workshop::orders::region_gift_total_exec(&orders, &regions, "south", "doll"),
        8
    );
    assert_eq!(workshop::orders::region_total_exec(&orders, &regions, "east"), 0);
}

#[test]
fn test_day12_store() {
    let mut store = TextStore::new();
    store.save("packet", 1_700_000_000);
    assert_eq!(store.elapsed("packet", 1_700_000_002), Some(2));
    assert_eq!(store.elapsed("unknown", 1_700_000_002), None);
    store.save("packet", 1_700_000_010);
    assert_eq!(store.elapsed("packet", 1_700_000_011), Some(1));
}

#[test]
fn test_day20_archives() {
    // a tar archive with one file of 14 bytes
    let mut builder = tar::Builder::new(Vec::new());
    let mut header = tar::Header::new_gnu();
    let content = b"cookie dough!\n";
    header.set_size(content.len() as u64);
    header.set_cksum();
    builder
        .append_data(&mut header, "santa.txt", &content[..])
        .unwrap();
    let bytes = builder.into_inner().unwrap();
    assert_eq!(
        workshop::archives::archive_file_count_text(&bytes),
        String::from("1")
    );
    assert_eq!(
        workshop::archives::archive_total_size_text(&bytes),
        Some(String::from("14"))
    );
}

#[test]
fn test_day12_ulids() {
    let ulids: Vec<String> = [
        "01BJQ0E1C3Z56ABCD0E11HYX4M",
        "01BJQ0E1C3Z56ABCD0E11HYX5N",
        "01BJQ0E1C3Z56ABCD0E11HYX6Q",
        "01BJQ0E1C3Z56ABCD0E11HYX7R",
        "01BJQ0E1C3Z56ABCD0E11HYX8P",
    ]
    .iter()
    .map(|s| String::from(*s))
    .collect();
    let uuid_result = workshop::ulids::ulids_to_uuids(&ulids);
    assert!(uuid_result.is_some());
    let uuids = uuid_result.unwrap();
    assert_eq!(uuids, vec![
        String::from("015cae07-0583-f94c-a5b1-a070431f7516"),
        String::from("015cae07-0583-f94c-a5b1-a070431f74f8"),
        String::from("015cae07-0583-f94c-a5b1-a070431f74d7"),
        String::from("015cae07-0583-f94c-a5b1-a070431f74b5"),
        String::from("015cae07-0583-f94c-a5b1-a070431f7494"),
    ]);
}

#[test]
fn test_day12_ulids_weekday() {
    let ulids: Vec<String> = [
        "00WEGGF0G0J5HEYXS3D7RWZGV8",
        "76EP4G39R8JD1N8AQNYDVJBRCF",
        "018CJ7KMG0051CDCS3B7BFJ3AK",
        "00Y986KPG0AMGB78RD45E9109K",
        "010451HTG0NYWMPWCEXG6AJ8F2",
        "01HH9SJEG0KY16H81S3N1BMXM4",
        "01HH9SJEG0P9M22Z9VGHH9C8CX",
        "017F8YY0G0NQA16HHC2QT5JD6X",
        "03QCPC7P003V1NND3B3QJW72QJ",
    ]
    .iter()
    .map(|s| String::from(*s))
    .collect();
    let now_ms = chrono::Utc::now().timestamp_millis();
    let criteria_result = workshop::ulids::ulid_criteria(&ulids, 5, now_ms);
    assert!(criteria_result.is_some());
    let criteria = criteria_result.unwrap();
    assert_eq!(
        criteria,
        workshop::ulids::UlidCriteria {
            christmas_eve: 3,
            weekday: 1,
            future: 2,
            lsb_is_1: 5,
        }
    );
}

#[test]
fn test_day12_ulid_rejects() {
    // wrong length, a letter outside the alphabet, and an overflowing
    // first character
    assert_eq!(workshop::ulids::parse_ulid("01BJQ0E1C3"), None);
    assert_eq!(workshop::ulids::parse_ulid("0LBJQ0E1C3Z56ABCD0E11HYX4M"), None);
    assert_eq!(workshop::ulids::parse_ulid("8ZZZZZZZZZZZZZZZZZZZZZZZZZ"), None);
    assert!(workshop::ulids::parse_ulid("7ZZZZZZZZZZZZZZZZZZZZZZZZZ").is_some());
}

#[test]
fn test_day18_reports() {
    let order = |gift: &str, region_id: i32, quantity: i32| Order {
        id: 0,
        region_id,
        gift_name: String::from(gift),
        quantity,
    };
    let orders = vec![
        order("sled", 2, 3),
        order("doll", 1, 5),
        order("sled", 1, 2),
        order("kite", 2, 3),
        order("doll", 2, 1),
    ];
    let regions = vec![
        Region { id: 1, name: String::from("south") },
        Region { id: 2, name: String::from("north") },
        Region { id: 3, name: String::from("quiet") },
    ];
    let totals = workshop::orders::region_report(&orders, &regions);
    assert_eq!(totals.len(), 2);
    assert_eq!(totals[0].region, String::from("north"));
    assert_eq!(totals[0].total, 7);
    assert_eq!(totals[1].region, String::from("south"));
    assert_eq!(totals[1].total, 7);
    let report = workshop::orders::popular_report(&orders, &regions, 2);
    assert_eq!(report.len(), 3);
    // all region names, sorted; a region with no orders lists nothing
    assert_eq!(report[0].region, String::from("north"));
    // north: sled 3, kite 3, doll 1: larger totals first, ties by name
    assert_eq!(report[0].top_gifts, vec![String::from("kite"), String::from("sled")]);
    assert_eq!(report[1].region, String::from("quiet"));
    assert_eq!(report[1].top_gifts, Vec::<String>::new());
    assert_eq!(report[2].region, String::from("south"));
    assert_eq!(report[2].top_gifts, vec![String::from("doll"), String::from("sled")]);
}

#[test]
fn test_day07_negative_amount_grows_the_shelf() {
    // a negative required amount passes the availability check whenever
    // the ingredient is on the shelf, and taking the batch adds to it
    let recipe = vec![pantry_entry("snow", -5)];
    let pantry = vec![pantry_entry("snow", 3)];
    let mut data = BakeData::new(recipe, pantry);
    assert!(data.ingredients_available());
    assert_eq!(data.pantry_amount("snow"), Some(8));
    assert!(data.ingredients_available());
    assert_eq!(data.pantry_amount("snow"), Some(13));
    // a missing ingredient still fails the check
    let recipe = vec![pantry_entry("stardust", -1)];
    let mut empty = BakeData::new(recipe, Vec::new());
    assert!(!empty.ingredients_available());
}
