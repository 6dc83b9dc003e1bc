use advent_puzzles::day_four::convert_to_credentials;
use advent_puzzles::day_four::Credential;

fn to_lines(text: &str) -> Vec<String> {
    text.lines().map(|x| x.to_string()).collect()
}

fn to_trimmed_lines(text: &str) -> Vec<String> {
    text.lines().map(|x| String::from(x.trim())).collect()
}

#[test]
fn should_convert_lines_to_credentials() {
    let under_test = String::from(
        "ecl:gry pid:860033327 eyr:2020
        hcl:#fffffd byr:1937
        iyr:2017 cid:147 hgt:183cm

        ecl:gry pid:860033327 eyr:2020 hcl:#fffffd byr:1937 iyr:2017 cid:147 hgt:183cm",
    );
    let result = convert_to_credentials(&to_lines(&under_test));
    let first_result = result.first().unwrap();

    assert_eq!(result.len(), 2);
    assert_eq!(first_result.credentials.contains(&Credential::ECL("gry".into())), true);
    assert_eq!(first_result.credentials.contains(&Credential::PID("860033327".into())), true);
    assert_eq!(first_result.credentials.contains(&Credential::EYR("2020".into())), true);
    assert_eq!(first_result.credentials.contains(&Credential::HCL("#fffffd".into())), true);
    assert_eq!(first_result.credentials.contains(&Credential::BYR("1937".into())), true);
    assert_eq!(first_result.credentials.contains(&Credential::IYR("2017".into())), true);
    assert_eq!(first_result.credentials.contains(&Credential::HGT("183cm".into())), true)
}

#[test]
fn should_count_valid_credentials_for_task_one() {
    let under_test = "ecl:gry pid:860033327 eyr:2020 hcl:#fffffd
            byr:1937 iyr:2017 cid:147 hgt:183cm

            iyr:2013 ecl:amb cid:350 eyr:2023 pid:028048884
            hcl:#cfa07d byr:1929

            hcl:#ae17e1 iyr:2013
            eyr:2024
            ecl:brn pid:760753108 byr:1931
            hgt:179cm

            hcl:#cfa07d eyr:2025 pid:166559648
            iyr:2011 ecl:brn hgt:59in";
    let creds = convert_to_credentials(&to_trimmed_lines(under_test))
        .iter()
        .filter(|credential| credential.is_valid_for_task_one())
        .count();
    assert_eq!(creds, 2)
}

#[test]
fn should_count_valid_credentials_for_task_two() {
    let under_test = "eyr:1972 cid:100
        hcl:#18171d ecl:amb hgt:170 pid:186cm iyr:2018 byr:1926

        iyr:2019
        hcl:#602927 eyr:1967 hgt:170cm
        ecl:grn pid:012533040 byr:1946

        hcl:dab227 iyr:2012
        ecl:brn hgt:182cm pid:021572410 eyr:2020 byr:1992 cid:277

        hgt:59cm ecl:zzz
        eyr:2038 hcl:74454a iyr:2023
        pid:3556412378 byr:2007

        pid:087499704 hgt:74in ecl:grn iyr:2012 eyr:2030 byr:1980
        hcl:#623a2f

        eyr:2029 ecl:blu cid:129 byr:1989
        iyr:2014 pid:896056539 hcl:#a97842 hgt:165cm

        hcl:#888785
        hgt:164cm byr:2001 iyr:2015 cid:88
        pid:545766238 ecl:hzl
        eyr:2022

        iyr:2010 hgt:158cm hcl:#b6652a ecl:blu byr:1944 eyr:2021 pid:093154719
        ";
    let creds = convert_to_credentials(&to_trimmed_lines(under_test))
        .iter()
        .filter(|credential| credential.is_valid_for_task_two())
        .count();
    assert_eq!(creds, 4)
}
